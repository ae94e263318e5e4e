//! What holds across the operations of the tag store.

use crate::model::{
    has_tag, unique_tag_names, unique_targets, well_formed, AssociationView, DatabaseView,
    TagView, TargetView,
};
use crate::tags::{
    added, deleted, has_target, lemma_contains_last, lemma_names_without, lemma_strip_and_prune,
    lemma_tags_without, lemma_union_append, resolve, strip_association, tags_of, target_index,
};
use vstd::prelude::*;

verus! {

/// Resolving names finds exactly the tags whose names are listed: a listed
/// name that no tag has is left out, and nothing else is.
pub proof fn lemma_resolve_members(tags: Seq<TagView>, names: Seq<Seq<char>>)
    requires
        unique_tag_names(tags),
    ensures
        forall|t: TagView| #[trigger]
            resolve(tags, names).contains(t) <==> tags.contains(t) && names.contains(t.name),
    decreases names.len(),
{
    if names.len() > 0 {
        let init = names.drop_last();
        let rest = resolve(tags, init);
        let last = names.last();
        lemma_resolve_members(tags, init);
        lemma_contains_last(names);
        if has_tag(tags, last) {
            let c = choose|i: int| 0 <= i < tags.len() && #[trigger] tags[i].name == last;
            let r = rest.push(tags[c]);
            assert(r[r.len() - 1] == tags[c]);
            assert forall|t: TagView| #[trigger] r.contains(t) <==> tags.contains(t)
                && names.contains(t.name) by {
                if r.contains(t) {
                    let j = choose|j: int| 0 <= j < r.len() && r[j] == t;
                    if j < rest.len() {
                        assert(rest.contains(t));
                    }
                }
                if tags.contains(t) && names.contains(t.name) {
                    if init.contains(t.name) {
                        assert(rest.contains(t));
                        let j = choose|j: int| 0 <= j < rest.len() && rest[j] == t;
                        assert(r[j] == t);
                    } else {
                        let j = choose|j: int| 0 <= j < tags.len() && tags[j] == t;
                        assert(j == c);
                    }
                }
            }
        } else {
            assert forall|t: TagView| tags.contains(t) && t.name == last implies false by {
                let j = choose|j: int| 0 <= j < tags.len() && tags[j] == t;
                assert(tags[j].name == last);
            }
        }
    }
}

/// Deleting a tag leaves a well-formed database in which no tag has its
/// name, no association lists it, and no target resolves to a tag of that
/// name.
pub proof fn lemma_delete_cascades(db: DatabaseView, name: Seq<char>)
    requires
        well_formed(db),
    ensures
        well_formed(deleted(db, name)),
        !has_tag(deleted(db, name).tags, name),
        forall|i: int|
            0 <= i < deleted(db, name).associations.len() ==> !(#[trigger] deleted(
                db,
                name,
            ).associations[i]).tag_names.contains(name),
        forall|t: TargetView, k: int|
            0 <= k < tags_of(deleted(db, name), t).len() ==> (#[trigger] tags_of(
                deleted(db, name),
                t,
            )[k]).name != name,
{
    let d = deleted(db, name);
    let gone = seq![name];
    assert(gone[0] == name);
    lemma_tags_without(db.tags, name);
    lemma_strip_and_prune(db.associations, None, gone);
    assert forall|i: int| 0 <= i < d.associations.len() implies !(
    #[trigger] d.associations[i]).tag_names.contains(name) by {
        let a = d.associations[i];
        assert(d.associations.contains(a));
        let k = choose|k: int|
            0 <= k < db.associations.len() && a == strip_association(
                #[trigger] db.associations[k],
                None,
                gone,
            );
        lemma_names_without(db.associations[k].tag_names, gone);
    }
    assert forall|t: TargetView, k: int| 0 <= k < tags_of(d, t).len() implies (#[trigger] tags_of(
        d,
        t,
    )[k]).name != name by {
        let i = target_index(d.associations, t);
        lemma_resolve_members(d.tags, d.associations[i].tag_names);
        let x = tags_of(d, t)[k];
        assert(tags_of(d, t).contains(x));
        let j = choose|j: int| 0 <= j < d.tags.len() && d.tags[j] == x;
    }
}

/// Attaching the same names to the same target a second time changes
/// nothing: each name stays attached once.
pub proof fn lemma_add_twice(db: DatabaseView, t: TargetView, names: Seq<Seq<char>>)
    requires
        well_formed(db),
    ensures
        added(added(db, t, names), t, names) == added(db, t, names),
{
    if names.len() > 0 {
        let d1 = added(db, t, names);
        let i1 = if has_target(db.associations, t) {
            target_index(db.associations, t)
        } else {
            db.associations.len() as int
        };
        let existing = if has_target(db.associations, t) {
            db.associations[i1].tag_names
        } else {
            Seq::empty()
        };
        lemma_union_append(existing, names);
        assert(d1.associations[i1].target == t);
        assert(unique_targets(d1.associations));
        assert(has_target(d1.associations, t));
        let c = target_index(d1.associations, t);
        assert(c == i1);
        let u = d1.associations[i1].tag_names;
        assert forall|k: int| 0 <= k < names.len() implies u.contains(#[trigger] names[k]) by {
            assert(names.contains(names[k]));
        }
        lemma_union_append(u, names);
        assert(d1.associations.update(i1, AssociationView { target: t, tag_names: u })
            =~= d1.associations);
    }
}

} // verus!
