//! Structural code differencing.
//!
//! Implements the SimpleGumTree matcher (Falleri & Martinez, ICSE 2024) on
//! arena-backed syntax trees, plus a Chawathe edit-script generator and the
//! data behind the output formats. Every function here is verified against
//! its contract.

pub mod actions;
pub mod decimal;
pub mod format;
pub mod language;
pub mod languages;
pub mod line_tree;
pub mod lis;
pub mod mapping;
pub mod matcher;
pub mod output;
pub mod ratio;
pub mod side_by_side;
pub mod string_distance;
pub mod syntax;
pub mod text;
pub mod tree;
pub mod ts_convert;

use vstd::prelude::*;
use vstd::string::StringExecFns;

use tree_sitter::Tree as SyntaxTree;

use crate::actions::{
    edit_script, generate_actions, identity_on, lemma_identity_script_empty, runs_longest, same_shape, Action,
};
use crate::decimal::{decimal_spec, push_decimal};
use crate::language::LanguageProfile;
use crate::line_tree::{build_line_tree, is_line_tree, source_lines};
use crate::mapping::Mapping;
use crate::matcher::line_diff::{
    child_labels, lemma_identical_files_map_all_lines, line_links_ok, lines_matched, match_lines,
};
use crate::matcher::{match_trees, MatchOptions};
use crate::syntax::{language_error_text, new_parser, parse_source, set_parse_timeout, set_parser_language};
use crate::tree::{Node, Tree};
use crate::ts_convert::{
    conv, conversion_of, convert_records, converted, decisions_for, profile_decisions, syntax_records, SyntaxRecord,
};

verus! {

/// The full result of diffing two trees: their internal representations, the
/// final node mapping, and the edit script.
pub struct DiffResult {
    pub src_tree: Tree,
    pub dst_tree: Tree,
    pub mapping: Mapping,
    pub actions: Vec<Action>,
}

/// Options forwarded to the matcher and parser.
#[derive(Debug, Clone, Copy)]
pub struct DiffOptions {
    pub match_options: MatchOptions,
    /// Maximum file size in bytes. Files exceeding this are rejected before
    /// parsing. Set to `0` to disable the limit.
    pub max_file_size: u64,
    /// Parser timeout in microseconds. Set to `0` to disable.
    pub parse_timeout_us: u64,
}

/// Default: 100 MB file limit, 60-second parse timeout.
impl Default for DiffOptions {
    fn default() -> (o: Self)
        ensures
            o.match_options.min_height == crate::matcher::topdown::DEFAULT_MIN_HEIGHT,
            o.match_options.min_dice.numerator == 1 && o.match_options.min_dice.denominator == 2,
            o.match_options.max_size == crate::matcher::bottomup::DEFAULT_MAX_SIZE,
            o.max_file_size == 100 * 1024 * 1024,
            o.parse_timeout_us == 60_000_000,
    {
        DiffOptions {
            match_options: MatchOptions::default(),
            max_file_size: 100 * 1024 * 1024,
            parse_timeout_us: 60_000_000,
        }
    }
}

/// The diff of two trees: the mapping is a bijection between their nodes
/// that anchors roots of the same kind, and the actions are the edit script
/// it induces.
pub open spec fn diff_of(result: DiffResult) -> bool {
    &&& result.mapping.wf()
    &&& result.mapping.fits(result.src_tree.arena().len(), result.dst_tree.arena().len())
    &&& exists|kept: Seq<Seq<usize>>|
        #![trigger edit_script(
            result.src_tree.arena(),
            result.src_tree.root_id(),
            result.dst_tree.arena(),
            result.dst_tree.root_id(),
            result.mapping,
            kept,
        )]
        runs_longest(
            result.src_tree.arena(),
            result.dst_tree.arena(),
            result.mapping.fwd(),
            result.mapping.links(),
            kept,
        ) && result.actions@ == edit_script(
            result.src_tree.arena(),
            result.src_tree.root_id(),
            result.dst_tree.arena(),
            result.dst_tree.root_id(),
            result.mapping,
            kept,
        )
}

/// Diffs two already-built internal trees.
pub fn diff_trees(source: Tree, destination: Tree, options: &DiffOptions) -> (r: DiffResult)
    requires
        source.wf(),
        destination.wf(),
        crate::matcher::outside_unread(source, destination),
        source.arena().len() + destination.arena().len() <= usize::MAX / 2,
        options.match_options.min_dice.wf(),
    ensures
        r.src_tree == source,
        r.dst_tree == destination,
        diff_of(r),
        source.arena()[source.root_id()].kind@ == destination.arena()[destination.root_id()].kind@
            ==> r.mapping.fwd().contains_key(source.root_id() as usize) || r.mapping.bwd().contains_key(
            destination.root_id() as usize,
        ),
        crate::tree::same_tree(source.arena(), destination.arena()) && source.root_id() == destination.root_id()
            && source.arena()[source.root_id()].height > options.match_options.min_height && destination.connected()
            ==> identity_on(
            source.arena(),
            r.mapping,
        ) && r.actions@.len() == 0,
        forall|x: int, y: int|
            #[trigger] crate::matcher::topdown::unique_iso_pair(
                source.arena(),
                destination.arena(),
                source.root_id(),
                destination.root_id(),
                options.match_options.min_height as int,
                x,
                y,
            ) ==> r.mapping.fwd().contains_key(x as usize) && r.mapping.fwd()[x as usize] == y as usize,
{
    let mapping = match_trees(&source, &destination, options.match_options);
    let actions = generate_actions(&source, &destination, &mapping);
    let ghost t1 = source.arena();
    let ghost t2 = destination.arena();
    let ghost r1 = source.root_id();
    let ghost r2 = destination.root_id();
    let result = DiffResult { src_tree: source, dst_tree: destination, mapping, actions };
    proof {
        let kept = choose|kept: Seq<Seq<usize>>|
            #![trigger edit_script(t1, r1, t2, r2, result.mapping, kept)]
            runs_longest(t1, t2, result.mapping.fwd(), result.mapping.links(), kept)
                && result.actions@ == edit_script(t1, r1, t2, r2, result.mapping, kept);
        assert(runs_longest(
            result.src_tree.arena(),
            result.dst_tree.arena(),
            result.mapping.fwd(),
            result.mapping.links(),
            kept,
        ) && result.actions@ == edit_script(
            result.src_tree.arena(),
            result.src_tree.root_id(),
            result.dst_tree.arena(),
            result.dst_tree.root_id(),
            result.mapping,
            kept,
        ));
        if crate::tree::same_tree(t1, t2) && r1 == r2 && t1[r1].height > options.match_options.min_height && destination.connected() {
            assert(crate::tree::arena_wf(t1, r1));
            assert(crate::tree::arena_wf(t2, r2));
            assert(same_shape(t1, t2));
            crate::actions::lemma_identity_script_empty(t1, t2, r1, result.mapping, kept);
        }
    }
    result
}

/// The message that rejects a source of `len` bytes over a limit of `max`.
pub open spec fn size_error(which: Seq<char>, len: nat, max: nat) -> Seq<char> {
    which + " source exceeds max file size ("@ + decimal_spec(len) + " bytes > "@ + decimal_spec(max)
        + " bytes)"@
}

/// The source is over the limit, a limit of `0` meaning none.
pub open spec fn over_limit(len: nat, max: nat) -> bool {
    max > 0 && len > max
}

/// Renders the rejection of an oversized source.
fn size_error_message(which: &str, len: u64, max: u64) -> (s: String)
    ensures
        s@ == size_error(which@, len as nat, max as nat),
{
    let mut message = String::from_str(which);
    message.append(" source exceeds max file size (");
    push_decimal(&mut message, len);
    message.append(" bytes > ");
    push_decimal(&mut message, max);
    message.append(" bytes)");
    message
}

/// Line-based diff for files with no recognized grammar.
///
/// Builds flat `file → line*` trees from both inputs and uses LCS-based
/// matching. The result uses the same action vocabulary as the AST-level diff,
/// so callers (including the JSON formatter) need no special handling.
pub fn diff_lines(old_source: &[u8], new_source: &[u8], options: &DiffOptions) -> (r: Result<
    DiffResult,
    String,
>)
    ensures
        over_limit(old_source@.len(), options.max_file_size as nat) ==> (r matches Err(e) && e@
            == size_error("old"@, old_source@.len(), options.max_file_size as nat)),
        !over_limit(old_source@.len(), options.max_file_size as nat) && over_limit(
            new_source@.len(),
            options.max_file_size as nat,
        ) ==> (r matches Err(e) && e@ == size_error("new"@, new_source@.len(), options.max_file_size as nat)),
        !over_limit(old_source@.len(), options.max_file_size as nat) && !over_limit(
            new_source@.len(),
            options.max_file_size as nat,
        ) ==> r is Ok,
        r matches Ok(d) ==> {
            &&& d.src_tree.wf()
            &&& d.dst_tree.wf()
            &&& is_line_tree(d.src_tree.arena(), old_source@.len() as int, source_lines(old_source@))
            &&& is_line_tree(d.dst_tree.arena(), new_source@.len() as int, source_lines(new_source@))
            &&& d.src_tree.root_id() == 0
            &&& d.dst_tree.root_id() == 0
            &&& d.mapping.fwd().contains_key(0usize)
            &&& d.mapping.fwd()[0usize] == 0usize
            &&& line_links_ok(d.src_tree.arena(), 0, d.dst_tree.arena(), 0, d.mapping)
            &&& lines_matched(d.src_tree.arena(), 0, d.dst_tree.arena(), 0, d.mapping)
            &&& diff_of(d)
        },
        old_source@ == new_source@ ==> (r matches Ok(d) ==> d.actions@.len() == 0),
{
    proof {
        reveal_strlit("old");
        reveal_strlit("new");
    }
    if options.max_file_size > 0 && old_source.len() as u64 > options.max_file_size {
        return Err(size_error_message("old", old_source.len() as u64, options.max_file_size));
    }
    if options.max_file_size > 0 && new_source.len() as u64 > options.max_file_size {
        return Err(size_error_message("new", new_source.len() as u64, options.max_file_size));
    }

    let source_tree = build_line_tree(old_source);
    let destination_tree = build_line_tree(new_source);
    let mapping = match_lines(&source_tree, &destination_tree);
    let actions = generate_actions(&source_tree, &destination_tree, &mapping);
    proof {
        if old_source@ == new_source@ {
            lemma_same_text_no_actions(
                source_tree.arena(),
                destination_tree.arena(),
                old_source@.len() as int,
                source_lines(old_source@),
                mapping,
                actions@,
            );
        }
    }
    Ok(DiffResult { src_tree: source_tree, dst_tree: destination_tree, mapping, actions })
}

/// Two line trees built from the same text, matched line by line, give an
/// empty edit script.
proof fn lemma_same_text_no_actions(
    t1: Seq<Node>,
    t2: Seq<Node>,
    len: int,
    lines: Seq<(Seq<char>, int, int)>,
    m: Mapping,
    actions: Seq<Action>,
)
    requires
        crate::tree::arena_wf(t1, 0),
        crate::tree::arena_wf(t2, 0),
        t1.len() <= usize::MAX,
        is_line_tree(t1, len, lines),
        is_line_tree(t2, len, lines),
        m.wf(),
        m.fits(t1.len(), t2.len()),
        lines_matched(t1, 0, t2, 0, m),
        exists|kept: Seq<Seq<usize>>|
            #![trigger edit_script(t1, 0, t2, 0, m, kept)]
            runs_longest(t1, t2, m.fwd(), m.links(), kept) && actions == edit_script(t1, 0, t2, 0, m, kept),
    ensures
        actions.len() == 0,
{
    // Both trees hold the same nodes.
    assert forall|k: int| 0 <= k < t1.len() implies #[trigger] t1[k].parent == t2[k].parent by {
        if k > 0 {
            assert(t1[(k - 1) + 1].parent == t2[(k - 1) + 1].parent);
        }
    }
    assert forall|i: int| 0 <= i < t1.len() implies (#[trigger] t1[i]).label@ == t2[i].label@ && t1[i].parent
        == t2[i].parent && t1[i].children@ == t2[i].children@ by {
        crate::tree::lemma_children_from_parents(t1, t2, i);
        if i > 0 {
            assert(t1[(i - 1) + 1].label@ == t2[(i - 1) + 1].label@);
        }
    }
    assert(same_shape(t1, t2));
    // Every line is matched to the line at the same place.
    let c1 = t1[0].children@;
    assert(child_labels(t1, 0) =~= child_labels(t2, 0));
    lemma_identical_files_map_all_lines(t1, 0, t2, 0, m);
    assert forall|x: usize|
        #![trigger m.fwd().contains_key(x)]
        #![trigger m.fwd()[x]]
        x < t1.len() implies m.fwd().contains_key(x) && m.fwd()[x] == x by {
        if x > 0 {
            assert(t1[(x - 1) + 1].parent == Some(0usize));
            assert(c1.contains(x));
            let k = choose|k: int| 0 <= k < c1.len() && c1[k] == x;
            assert(m.fwd().contains_key(c1[k]) && m.fwd()[c1[k]] == t2[0].children@[k]);
        }
    }
    assert(identity_on(t1, m));
    let kept = choose|kept: Seq<Seq<usize>>|
        #![trigger edit_script(t1, 0, t2, 0, m, kept)]
        runs_longest(t1, t2, m.fwd(), m.links(), kept) && actions == edit_script(t1, 0, t2, 0, m, kept);
    lemma_identity_script_empty(t1, t2, 0, m, kept);
}

/// A diff of two converted syntax trees: both trees are well formed, rooted
/// at their first node with every node under the root, and the result is
/// their diff.
pub open spec fn syntax_diff_of(d: DiffResult) -> bool {
    &&& d.src_tree.wf()
    &&& d.dst_tree.wf()
    &&& d.src_tree.connected()
    &&& d.dst_tree.connected()
    &&& d.src_tree.root_id() == 0
    &&& d.dst_tree.root_id() == 0
    &&& diff_of(d)
    &&& d.src_tree.arena()[0].kind@ == d.dst_tree.arena()[0].kind@ ==> d.mapping.fwd().contains_key(0usize)
        || d.mapping.bwd().contains_key(0usize)
}

/// The two trees of a diff are conversions of syntax records of the two
/// sources: their nodes are the kept syntax nodes, in depth-first order,
/// with their kinds, spans and source text.
pub open spec fn converted_sources(d: DiffResult, old_source: Seq<u8>, new_source: Seq<u8>) -> bool {
    &&& exists|r: Seq<SyntaxRecord>, keep: Seq<bool>, lab: Seq<bool>|
        #[trigger] conversion_of(d.src_tree.arena(), r, old_source, keep, lab)
    &&& exists|r: Seq<SyntaxRecord>, keep: Seq<bool>, lab: Seq<bool>|
        #[trigger] conversion_of(d.dst_tree.arena(), r, new_source, keep, lab)
}

/// The number of nodes the conversion makes of the records.
pub open spec fn converted_size(r: Seq<SyntaxRecord>, keep: Seq<bool>) -> nat {
    conv(r, keep, 0, 0, None).len()
}

/// `r` is what diffing the conversions of two record lists gives: the
/// too-large error exactly when the two conversions hold more than
/// `usize::MAX / 2` nodes together, else a diff of the two conversions in
/// which every unique isomorphic pair above `min_height` is linked.
pub open spec fn records_diff(
    r: Result<DiffResult, String>,
    old_records: Seq<SyntaxRecord>,
    old_keep: Seq<bool>,
    old_lab: Seq<bool>,
    new_records: Seq<SyntaxRecord>,
    new_keep: Seq<bool>,
    new_lab: Seq<bool>,
    old_source: Seq<u8>,
    new_source: Seq<u8>,
    min_height: int,
) -> bool {
    if converted_size(old_records, old_keep) + converted_size(new_records, new_keep) > usize::MAX / 2 {
        r matches Err(e) && e@ == "syntax trees too large to diff"@
    } else {
        match r {
            Ok(d) => {
                &&& syntax_diff_of(d)
                &&& converted(d.src_tree.arena(), old_records, old_source, old_keep, old_lab)
                &&& converted(d.dst_tree.arena(), new_records, new_source, new_keep, new_lab)
                &&& forall|x: int, y: int|
                    #[trigger] crate::matcher::topdown::unique_iso_pair(
                        d.src_tree.arena(),
                        d.dst_tree.arena(),
                        0,
                        0,
                        min_height,
                        x,
                        y,
                    ) ==> d.mapping.fwd().contains_key(x as usize) && d.mapping.fwd()[x as usize] == y as usize
            },
            Err(_) => false,
        }
    }
}

/// Converts two lists of syntax records, as `keep` and `lab` decide for
/// each, and diffs the two trees; two trees with more nodes together than
/// the matcher can number are refused.
pub fn diff_records(
    old_records: &Vec<SyntaxRecord>,
    old_keep: &Vec<bool>,
    old_lab: &Vec<bool>,
    new_records: &Vec<SyntaxRecord>,
    new_keep: &Vec<bool>,
    new_lab: &Vec<bool>,
    old_source: &[u8],
    new_source: &[u8],
    options: &DiffOptions,
) -> (r: Result<DiffResult, String>)
    requires
        crate::ts_convert::records_wf(old_records@),
        old_keep@.len() == old_records@.len(),
        old_lab@.len() == old_records@.len(),
        crate::ts_convert::records_wf(new_records@),
        new_keep@.len() == new_records@.len(),
        new_lab@.len() == new_records@.len(),
        options.match_options.min_dice.wf(),
    ensures
        records_diff(
            r,
            old_records@,
            old_keep@,
            old_lab@,
            new_records@,
            new_keep@,
            new_lab@,
            old_source@,
            new_source@,
            options.match_options.min_height as int,
        ),
{
    let source = convert_records(old_records, old_source, old_keep, old_lab);
    let destination = convert_records(new_records, new_source, new_keep, new_lab);
    if source.node_count() > usize::MAX / 2 || destination.node_count() > usize::MAX / 2 - source.node_count() {
        return Err(String::from_str("syntax trees too large to diff"));
    }
    proof {
        crate::matcher::lemma_connected_outside_unread(source, destination);
    }
    let d = diff_trees(source, destination, options);
    Ok(d)
}

/// Diffs the outcome of parsing both sources: a source whose parse failed is
/// reported, and the syntax records of two syntax trees, with the decisions
/// of `profile`, are converted and diffed.
pub fn diff_parsed<P: LanguageProfile>(
    old_syntax: Option<SyntaxTree>,
    new_syntax: Option<SyntaxTree>,
    old_source: &[u8],
    new_source: &[u8],
    profile: &P,
    options: &DiffOptions,
) -> (r: Result<DiffResult, String>)
    requires
        options.match_options.min_dice.wf(),
    ensures
        old_syntax is None ==> (r matches Err(e) && e@ == "failed to parse old source (timeout or error)"@),
        old_syntax is Some && new_syntax is None ==> (r matches Err(e) && e@
            == "failed to parse new source (timeout or error)"@),
        old_syntax is Some && new_syntax is Some ==> exists|
            r1: Seq<SyntaxRecord>,
            k1: Seq<bool>,
            l1: Seq<bool>,
            r2: Seq<SyntaxRecord>,
            k2: Seq<bool>,
            l2: Seq<bool>,
        |
            #[trigger] records_diff(
                r,
                r1,
                k1,
                l1,
                r2,
                k2,
                l2,
                old_source@,
                new_source@,
                options.match_options.min_height as int,
            ) && decisions_for(r1, k1, l1) && decisions_for(r2, k2, l2),
        old_syntax is Some && new_syntax is Some ==> (r is Ok || (r matches Err(e) && e@
            == "syntax trees too large to diff"@)),
        r matches Ok(d) ==> syntax_diff_of(d) && converted_sources(d, old_source@, new_source@)
            && d.src_tree.arena().len() + d.dst_tree.arena().len() <= usize::MAX / 2,
{
    let old_syntax = match old_syntax {
        Some(tree) => tree,
        None => return Err(String::from_str("failed to parse old source (timeout or error)")),
    };
    let new_syntax = match new_syntax {
        Some(tree) => tree,
        None => return Err(String::from_str("failed to parse new source (timeout or error)")),
    };
    let old_records = syntax_records(&old_syntax);
    let (old_keep, old_lab) = profile_decisions(&old_records, profile);
    let new_records = syntax_records(&new_syntax);
    let (new_keep, new_lab) = profile_decisions(&new_records, profile);
    let r = diff_records(
        &old_records,
        &old_keep,
        &old_lab,
        &new_records,
        &new_keep,
        &new_lab,
        old_source,
        new_source,
        options,
    );
    proof {
        let mh = options.match_options.min_height as int;
        assert(records_diff(
            r,
            old_records@,
            old_keep@,
            old_lab@,
            new_records@,
            new_keep@,
            new_lab@,
            old_source@,
            new_source@,
            mh,
        ));
        if r is Ok {
            let d = r->Ok_0;
            assert(conversion_of(d.src_tree.arena(), old_records@, old_source@, old_keep@, old_lab@));
            assert(conversion_of(d.dst_tree.arena(), new_records@, new_source@, new_keep@, new_lab@));
        }
    }
    r
}

/// The parse error, in words, prefixed as the parser set-up reports it.
pub open spec fn set_language_error(message: Seq<char>) -> bool {
    "set_language: Incompatible language version "@.is_prefix_of(message)
}

/// Parses two source buffers with the given language profile, then diffs them.
pub fn diff_sources<P: LanguageProfile>(
    old_source: &[u8],
    new_source: &[u8],
    profile: &P,
    options: &DiffOptions,
) -> (r: Result<DiffResult, String>)
    requires
        options.match_options.min_dice.wf(),
    ensures
        over_limit(old_source@.len(), options.max_file_size as nat) ==> (r matches Err(e) && e@
            == size_error("old"@, old_source@.len(), options.max_file_size as nat)),
        !over_limit(old_source@.len(), options.max_file_size as nat) && over_limit(
            new_source@.len(),
            options.max_file_size as nat,
        ) ==> (r matches Err(e) && e@ == size_error("new"@, new_source@.len(), options.max_file_size as nat)),
        !over_limit(old_source@.len(), options.max_file_size as nat) && !over_limit(
            new_source@.len(),
            options.max_file_size as nat,
        ) ==> (r is Ok || (r matches Err(e) && (set_language_error(e@)
            || e@ == "failed to parse old source (timeout or error)"@
            || e@ == "failed to parse new source (timeout or error)"@
            || e@ == "syntax trees too large to diff"@))),
        r matches Ok(d) ==> syntax_diff_of(d) && converted_sources(d, old_source@, new_source@),
{
    proof {
        reveal_strlit("old");
        reveal_strlit("new");
    }
    if options.max_file_size > 0 && old_source.len() as u64 > options.max_file_size {
        return Err(size_error_message("old", old_source.len() as u64, options.max_file_size));
    }
    if options.max_file_size > 0 && new_source.len() as u64 > options.max_file_size {
        return Err(size_error_message("new", new_source.len() as u64, options.max_file_size));
    }

    let mut parser = new_parser();
    let language = profile.language();
    match set_parser_language(&mut parser, &language) {
        Ok(()) => {},
        Err(error) => {
            let mut message = String::from_str("set_language: ");
            let text = language_error_text(&error);
            message.append(text.as_str());
            proof {
                reveal_strlit("set_language: ");
                reveal_strlit("Incompatible language version ");
                reveal_strlit("set_language: Incompatible language version ");
                assert("set_language: Incompatible language version "@ =~= "set_language: "@
                    + "Incompatible language version "@);
            }
            return Err(message);
        },
    }
    set_parse_timeout(&mut parser, options.parse_timeout_us);
    let old_syntax = parse_source(&mut parser, old_source);
    let new_syntax = match old_syntax {
        Some(_) => parse_source(&mut parser, new_source),
        None => None,
    };
    diff_parsed(old_syntax, new_syntax, old_source, new_source, profile, options)
}

} // verus!
