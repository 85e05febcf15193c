//! The contents of the JSON output: every match and every action, each node
//! named by its display string. The serialised text itself is produced where
//! the document is written out.

use vstd::prelude::*;

use super::{format_node, node_display};
use crate::actions::{action_name, Action};
use crate::mapping::Mapping;
use crate::tree::{Node, Tree};

verus! {

/// One matched pair of nodes.
pub struct MatchEntry {
    pub src: String,
    pub dest: String,
}

/// One action of the edit script.
pub struct ActionEntry {
    pub action: &'static str,
    pub tree: String,
    pub parent: Option<String>,
    pub at: Option<usize>,
    pub label: Option<String>,
}

/// The whole document: `{"matches": [...], "actions": [...]}`.
pub struct DiffOutput {
    pub matches: Vec<MatchEntry>,
    pub actions: Vec<ActionEntry>,
}

/// The nodes an action names exist: inserted nodes and every parent in the
/// destination tree, all other nodes in the source tree.
pub open spec fn action_fits(a: Action, n1: nat, n2: nat) -> bool {
    match a {
        Action::InsertTree { node, parent, .. } => node < n2 && parent < n2,
        Action::InsertNode { node, parent, .. } => node < n2 && parent < n2,
        Action::DeleteTree { node } => node < n1,
        Action::DeleteNode { node } => node < n1,
        Action::Update { node, .. } => node < n1,
        Action::MoveTree { node, parent, .. } => node < n1 && parent < n2,
    }
}

/// What the JSON entry of an action holds: inserts name destination nodes,
/// everything else names source nodes; parents and positions come with
/// inserts and moves, the new label with updates.
pub open spec fn entry_matches(e: ActionEntry, t1: Seq<Node>, t2: Seq<Node>, a: Action) -> bool {
    &&& e.action@ == action_name(a)
    &&& match a {
        Action::InsertTree { node, parent, position } | Action::InsertNode { node, parent, position } => {
            &&& e.tree@ == node_display(t2[node as int])
            &&& e.parent matches Some(p) && p@ == node_display(t2[parent as int])
            &&& e.at == Some(position)
            &&& e.label is None
        },
        Action::DeleteTree { node } | Action::DeleteNode { node } => {
            &&& e.tree@ == node_display(t1[node as int])
            &&& e.parent is None
            &&& e.at is None
            &&& e.label is None
        },
        Action::Update { node, new_label } => {
            &&& e.tree@ == node_display(t1[node as int])
            &&& e.parent is None
            &&& e.at is None
            &&& e.label matches Some(l) && l@ == new_label@
        },
        Action::MoveTree { node, parent, position } => {
            &&& e.tree@ == node_display(t1[node as int])
            &&& e.parent matches Some(p) && p@ == node_display(t2[parent as int])
            &&& e.at == Some(position)
            &&& e.label is None
        },
    }
}

/// The JSON entry of one action.
pub fn format_action(source_tree: &Tree, destination_tree: &Tree, action: &Action) -> (e: ActionEntry)
    requires
        action_fits(*action, source_tree.arena().len(), destination_tree.arena().len()),
    ensures
        entry_matches(e, source_tree.arena(), destination_tree.arena(), *action),
{
    let name = action.action_str();
    match action {
        // Inserts name destination nodes; everything else names source nodes.
        Action::InsertTree { node, parent, position } | Action::InsertNode { node, parent, position } => {
            ActionEntry {
                action: name,
                tree: format_node(destination_tree.node(*node)),
                parent: Some(format_node(destination_tree.node(*parent))),
                at: Some(*position),
                label: None,
            }
        },
        Action::DeleteTree { node } | Action::DeleteNode { node } => ActionEntry {
            action: name,
            tree: format_node(source_tree.node(*node)),
            parent: None,
            at: None,
            label: None,
        },
        Action::Update { node, new_label } => ActionEntry {
            action: name,
            tree: format_node(source_tree.node(*node)),
            parent: None,
            at: None,
            label: Some(new_label.clone()),
        },
        Action::MoveTree { node, parent, position } => ActionEntry {
            action: name,
            tree: format_node(source_tree.node(*node)),
            parent: Some(format_node(destination_tree.node(*parent))),
            at: Some(*position),
            label: None,
        },
    }
}

/// The JSON document of a diff: one entry per link of the mapping, in the
/// order the links were made, then one entry per action, in order.
pub fn diff_output(
    source_tree: &Tree,
    destination_tree: &Tree,
    mapping: &Mapping,
    actions: &[Action],
) -> (r: DiffOutput)
    requires
        mapping.wf(),
        mapping.fits(source_tree.arena().len(), destination_tree.arena().len()),
        forall|k: int|
            0 <= k < actions@.len() ==> action_fits(
                #[trigger] actions@[k],
                source_tree.arena().len(),
                destination_tree.arena().len(),
            ),
    ensures
        r.matches@.len() == mapping.links().len(),
        forall|k: int|
            0 <= k < r.matches@.len() ==> {
                let link = mapping.links()[k];
                &&& (#[trigger] r.matches@[k]).src@ == node_display(source_tree.arena()[link.0 as int])
                &&& r.matches@[k].dest@ == node_display(destination_tree.arena()[link.1 as int])
            },
        r.actions@.len() == actions@.len(),
        forall|k: int|
            0 <= k < r.actions@.len() ==> entry_matches(
                #[trigger] r.actions@[k],
                source_tree.arena(),
                destination_tree.arena(),
                actions@[k],
            ),
{
    let pairs = mapping.pairs();
    proof {
        crate::mapping::lemma_pairs_are_links(*mapping);
    }
    let mut matches: Vec<MatchEntry> = Vec::with_capacity(pairs.len());
    let mut k: usize = 0;
    while k < pairs.len()
        invariant
            mapping.wf(),
            mapping.fits(source_tree.arena().len(), destination_tree.arena().len()),
            pairs@ == mapping.links(),
            forall|j: int|
                0 <= j < mapping.links().len() ==> mapping.fwd().contains_key(#[trigger] mapping.links()[j].0)
                    && mapping.fwd()[mapping.links()[j].0] == mapping.links()[j].1,
            k <= pairs@.len(),
            matches@.len() == k,
            forall|j: int|
                0 <= j < k ==> {
                    let link = mapping.links()[j];
                    &&& (#[trigger] matches@[j]).src@ == node_display(source_tree.arena()[link.0 as int])
                    &&& matches@[j].dest@ == node_display(destination_tree.arena()[link.1 as int])
                },
        decreases pairs@.len() - k,
    {
        let (source, destination) = pairs[k];
        proof {
            assert(mapping.fwd().contains_key(mapping.links()[k as int].0));
        }
        matches.push(
            MatchEntry {
                src: format_node(source_tree.node(source)),
                dest: format_node(destination_tree.node(destination)),
            },
        );
        k += 1;
    }
    let mut entries: Vec<ActionEntry> = Vec::with_capacity(actions.len());
    let mut k: usize = 0;
    while k < actions.len()
        invariant
            forall|j: int|
                0 <= j < actions@.len() ==> action_fits(
                    #[trigger] actions@[j],
                    source_tree.arena().len(),
                    destination_tree.arena().len(),
                ),
            k <= actions@.len(),
            entries@.len() == k,
            forall|j: int|
                0 <= j < k ==> entry_matches(
                    #[trigger] entries@[j],
                    source_tree.arena(),
                    destination_tree.arena(),
                    actions@[j],
                ),
        decreases actions@.len() - k,
    {
        entries.push(format_action(source_tree, destination_tree, &actions[k]));
        k += 1;
    }
    DiffOutput { matches, actions: entries }
}

} // verus!
