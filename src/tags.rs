//! The operations of the tag store. Each takes the whole database, checks
//! its inputs before it changes anything, and keeps the database well formed.

use crate::color::{color_accepted, is_color_code_str, trim_str, trimmed};
use crate::model::{
    association_ok, associations_view, has_tag, names_view, no_duplicates, tags_view,
    unique_tag_names, unique_targets, AssociationView, DatabaseView, Tag, TagAssociation,
    TagTarget, TagView, TagsDatabase, TagsError, TagsResult, TargetView,
};
use vstd::prelude::*;
use vstd::string::*;

verus! {

/// Position of the tag named `name` in `tags`, if there is one.
fn find_tag(tags: &Vec<Tag>, name: &String) -> (r: Option<usize>)
    ensures
        match r {
            Some(i) => i < tags@.len() && tags@[i as int].name@ == name@,
            None => !has_tag(tags_view(tags@), name@),
        },
{
    let mut i: usize = 0;
    while i < tags.len()
        invariant
            i <= tags@.len(),
            forall|k: int| 0 <= k < i ==> tags@[k].name@ != name@,
        decreases tags@.len() - i,
    {
        if tags[i].name == *name {
            return Some(i);
        }
        i = i + 1;
    }
    assert forall|k: int| 0 <= k < tags@.len() implies #[trigger] tags_view(tags@)[k].name != name@ by {
        assert(tags_view(tags@)[k] == tags@[k]@);
    }
    None
}

/// Adds the tag `name` with colour `color` (stored trimmed). The colour is
/// checked first; a name that is taken already fails with `DuplicateTag`. On
/// failure the database is left as it was.
pub fn create_tag(db: &mut TagsDatabase, name: String, color: String) -> (r: TagsResult<()>)
    requires
        old(db).valid(),
    ensures
        final(db).valid(),
        !color_accepted(color@) ==> r == Err::<(), TagsError>(TagsError::InvalidColor(color))
            && final(db)@ == old(db)@,
        color_accepted(color@) && has_tag(old(db)@.tags, name@) ==> r == Err::<(), TagsError>(
            TagsError::DuplicateTag(name),
        ) && final(db)@ == old(db)@,
        color_accepted(color@) && !has_tag(old(db)@.tags, name@) ==> r is Ok && final(db)@
            == (DatabaseView {
            tags: old(db)@.tags.push(TagView { name: name@, color: trimmed(color@) }),
            associations: old(db)@.associations,
        }),
{
    let t = trim_str(color.as_str());
    if !is_color_code_str(t) {
        return Err(TagsError::InvalidColor(color));
    }
    if let Some(i) = find_tag(&db.tags, &name) {
        assert(tags_view(db.tags@)[i as int].name == name@);
        return Err(TagsError::DuplicateTag(name));
    }
    let tag = Tag { name, color: String::from_str(t) };
    db.tags.push(tag);
    assert(tags_view(db.tags@) =~= tags_view(old(db).tags@).push(tag@));
    assert(final(db)@.tags == old(db)@.tags.push(tag@));
    Ok(())
}

/// `tags` without the tag named `name`.
pub open spec fn tags_without(tags: Seq<TagView>, name: Seq<char>) -> Seq<TagView>
    decreases tags.len(),
{
    if tags.len() == 0 {
        tags
    } else {
        let rest = tags_without(tags.drop_last(), name);
        if tags.last().name == name {
            rest
        } else {
            rest.push(tags.last())
        }
    }
}

/// `names` without any of the names in `gone`, the rest in order.
pub open spec fn names_without(names: Seq<Seq<char>>, gone: Seq<Seq<char>>) -> Seq<Seq<char>>
    decreases names.len(),
{
    if names.len() == 0 {
        names
    } else {
        let rest = names_without(names.drop_last(), gone);
        if gone.contains(names.last()) {
            rest
        } else {
            rest.push(names.last())
        }
    }
}

/// `a` with the names in `gone` taken out, where `a` is aimed at `only`
/// (or at any target when `only` is `None`); `a` unchanged otherwise.
pub open spec fn strip_association(
    a: AssociationView,
    only: Option<TargetView>,
    gone: Seq<Seq<char>>,
) -> AssociationView {
    if only is None || only == Some(a.target) {
        AssociationView { target: a.target, tag_names: names_without(a.tag_names, gone) }
    } else {
        a
    }
}

/// Each association stripped as `strip_association` says, and those left
/// without names dropped.
pub open spec fn strip_and_prune(
    assocs: Seq<AssociationView>,
    only: Option<TargetView>,
    gone: Seq<Seq<char>>,
) -> Seq<AssociationView>
    decreases assocs.len(),
{
    if assocs.len() == 0 {
        assocs
    } else {
        let rest = strip_and_prune(assocs.drop_last(), only, gone);
        let a = strip_association(assocs.last(), only, gone);
        if a.tag_names.len() > 0 {
            rest.push(a)
        } else {
            rest
        }
    }
}

/// The database after the tag `name` is deleted: the tag is gone, its name
/// is taken out of every association, and associations left empty go.
pub open spec fn deleted(db: DatabaseView, name: Seq<char>) -> DatabaseView {
    DatabaseView {
        tags: tags_without(db.tags, name),
        associations: strip_and_prune(db.associations, None, seq![name]),
    }
}

pub(crate) proof fn lemma_contains_last<A>(s: Seq<A>)
    requires
        s.len() > 0,
    ensures
        forall|x: A| #[trigger] s.contains(x) <==> s.drop_last().contains(x) || x == s.last(),
{
    assert forall|x: A| #[trigger] s.contains(x) <==> s.drop_last().contains(x) || x == s.last() by {
        if s.contains(x) {
            let j = choose|j: int| 0 <= j < s.len() && s[j] == x;
            if j < s.len() - 1 {
                assert(s.drop_last()[j] == x);
            }
        }
        if s.drop_last().contains(x) {
            let j = choose|j: int| 0 <= j < s.drop_last().len() && s.drop_last()[j] == x;
            assert(s[j] == x);
        }
        if x == s.last() {
            assert(s[s.len() - 1] == x);
        }
    }
}

pub(crate) proof fn lemma_tags_without(tags: Seq<TagView>, name: Seq<char>)
    requires
        unique_tag_names(tags),
    ensures
        unique_tag_names(tags_without(tags, name)),
        !has_tag(tags_without(tags, name), name),
        forall|t: TagView| #[trigger]
            tags_without(tags, name).contains(t) ==> tags.contains(t) && t.name != name,
        forall|t: TagView| tags.contains(t) && t.name != name ==> #[trigger]
            tags_without(tags, name).contains(t),
    decreases tags.len(),
{
    if tags.len() > 0 {
        let init = tags.drop_last();
        let rest = tags_without(init, name);
        lemma_tags_without(init, name);
        lemma_contains_last(tags);
        if tags.last().name != name {
            let r = rest.push(tags.last());
            assert forall|i: int, j: int| 0 <= i < j < r.len() implies r[i].name != r[j].name by {
                if j == r.len() - 1 {
                    assert(rest.contains(r[i]));
                    let k = choose|k: int| 0 <= k < init.len() && init[k] == r[i];
                    assert(tags[k] == init[k]);
                }
            }
            assert forall|t: TagView| #[trigger] r.contains(t) implies tags.contains(t)
                && t.name != name by {
                let k = choose|k: int| 0 <= k < r.len() && r[k] == t;
                if k < rest.len() {
                    assert(rest.contains(t));
                }
            }
            assert forall|t: TagView| tags.contains(t) && t.name != name implies #[trigger]
                r.contains(t) by {
                if t != tags.last() {
                    assert(rest.contains(t));
                    let k = choose|k: int| 0 <= k < rest.len() && rest[k] == t;
                    assert(r[k] == t);
                } else {
                    assert(r[r.len() - 1] == t);
                }
            }
            assert forall|i: int| 0 <= i < r.len() implies #[trigger] r[i].name != name by {
                if i < rest.len() {
                    assert(rest.contains(r[i]));
                }
            }
        } else {
            assert forall|t: TagView| tags.contains(t) && t.name != name implies #[trigger]
                rest.contains(t) by {
                assert(init.contains(t));
            }
            assert forall|i: int| 0 <= i < rest.len() implies #[trigger] rest[i].name != name by {
                assert(rest.contains(rest[i]));
            }
        }
    }
}

pub(crate) proof fn lemma_names_without(names: Seq<Seq<char>>, gone: Seq<Seq<char>>)
    ensures
        forall|x: Seq<char>| #[trigger]
            names_without(names, gone).contains(x) <==> names.contains(x) && !gone.contains(x),
        no_duplicates(names) ==> no_duplicates(names_without(names, gone)),
    decreases names.len(),
{
    if names.len() > 0 {
        let init = names.drop_last();
        let rest = names_without(init, gone);
        lemma_names_without(init, gone);
        lemma_contains_last(names);
        if !gone.contains(names.last()) {
            let r = rest.push(names.last());
            assert(r.drop_last() =~= rest);
            lemma_contains_last(r);
            if no_duplicates(names) {
                assert(no_duplicates(init));
                assert forall|i: int, j: int| 0 <= i < j < r.len() implies r[i] != r[j] by {
                    if j == r.len() - 1 {
                        assert(rest.contains(r[i]));
                        let k = choose|k: int| 0 <= k < init.len() && init[k] == r[i];
                        assert(names[k] == init[k]);
                    }
                }
            }
        } else {
            if no_duplicates(names) {
                assert(no_duplicates(init));
            }
        }
    }
}

pub(crate) proof fn lemma_strip_and_prune(
    assocs: Seq<AssociationView>,
    only: Option<TargetView>,
    gone: Seq<Seq<char>>,
)
    requires
        unique_targets(assocs),
        forall|i: int| 0 <= i < assocs.len() ==> association_ok(#[trigger] assocs[i]),
    ensures
        unique_targets(strip_and_prune(assocs, only, gone)),
        forall|i: int|
            0 <= i < strip_and_prune(assocs, only, gone).len() ==> association_ok(
                #[trigger] strip_and_prune(assocs, only, gone)[i],
            ),
        forall|a: AssociationView| #[trigger]
            strip_and_prune(assocs, only, gone).contains(a) ==> exists|k: int|
                0 <= k < assocs.len() && a == strip_association(#[trigger] assocs[k], only, gone),
    decreases assocs.len(),
{
    if assocs.len() > 0 {
        let init = assocs.drop_last();
        let rest = strip_and_prune(init, only, gone);
        let last = assocs.last();
        let a = strip_association(last, only, gone);
        assert forall|i: int| 0 <= i < init.len() implies association_ok(#[trigger] init[i]) by {
            assert(init[i] == assocs[i]);
        }
        lemma_strip_and_prune(init, only, gone);
        lemma_names_without(last.tag_names, gone);
        assert forall|b: AssociationView| #[trigger] rest.contains(b) implies exists|k: int|
            0 <= k < assocs.len() && b == strip_association(#[trigger] assocs[k], only, gone) by {
            let k = choose|k: int| 0 <= k < init.len() && b == strip_association(init[k], only, gone);
            assert(assocs[k] == init[k]);
        }
        if a.tag_names.len() > 0 {
            let r = rest.push(a);
            assert(association_ok(last));
            assert forall|i: int, j: int| 0 <= i < j < r.len() implies r[i].target
                != r[j].target by {
                if j == r.len() - 1 {
                    assert(rest.contains(r[i]));
                    let k = choose|k: int|
                        0 <= k < init.len() && r[i] == strip_association(init[k], only, gone);
                    assert(assocs[k] == init[k]);
                }
            }
            assert forall|i: int| 0 <= i < r.len() implies association_ok(#[trigger] r[i]) by {
                if i < rest.len() {
                    assert(r[i] == rest[i]);
                }
            }
            assert forall|b: AssociationView| #[trigger] r.contains(b) implies exists|k: int|
                0 <= k < assocs.len() && b == strip_association(#[trigger] assocs[k], only, gone) by {
                let j = choose|j: int| 0 <= j < r.len() && r[j] == b;
                if j < rest.len() {
                    assert(rest.contains(b));
                } else {
                    assert(b == strip_association(assocs[assocs.len() - 1], only, gone));
                }
            }
        }
    }
}

/// Whether `n` is one of `names`.
fn contains_name(names: &Vec<String>, n: &String) -> (r: bool)
    ensures
        r == names_view(names@).contains(n@),
{
    let mut i: usize = 0;
    while i < names.len()
        invariant
            i <= names@.len(),
            forall|k: int| 0 <= k < i ==> names@[k]@ != n@,
        decreases names@.len() - i,
    {
        if names[i] == *n {
            assert(names_view(names@)[i as int] == n@);
            return true;
        }
        i = i + 1;
    }
    assert forall|k: int| 0 <= k < names@.len() implies names_view(names@)[k] != n@ by {
        assert(names_view(names@)[k] == names@[k]@);
    }
    false
}

/// A copy of `t`.
fn copy_target(t: &TagTarget) -> (r: TagTarget)
    ensures
        r@ == t@,
{
    match t {
        TagTarget::Backup { save_name, backup_name } => TagTarget::Backup {
            save_name: save_name.clone(),
            backup_name: backup_name.clone(),
        },
        TagTarget::Save { relative_path } => TagTarget::Save { relative_path: relative_path.clone() },
    }
}

/// A copy of `t`.
fn copy_tag(t: &Tag) -> (r: Tag)
    ensures
        r@ == t@,
{
    Tag { name: t.name.clone(), color: t.color.clone() }
}

/// `names` without those in `gone`.
fn copy_names_without(names: &Vec<String>, gone: &Vec<String>) -> (r: Vec<String>)
    ensures
        names_view(r@) == names_without(names_view(names@), names_view(gone@)),
{
    let ghost src = names_view(names@);
    let ghost g = names_view(gone@);
    let mut r: Vec<String> = Vec::new();
    let mut i: usize = 0;
    assert(src.subrange(0, 0) =~= Seq::<Seq<char>>::empty());
    assert(names_view(r@) =~= Seq::<Seq<char>>::empty());
    while i < names.len()
        invariant
            i <= names@.len(),
            src == names_view(names@),
            g == names_view(gone@),
            names_view(r@) == names_without(src.subrange(0, i as int), g),
        decreases names@.len() - i,
    {
        let ghost pre = src.subrange(0, i as int);
        assert(src.subrange(0, i + 1).drop_last() =~= pre);
        assert(src.subrange(0, i + 1).last() == names@[i as int]@);
        if !contains_name(gone, &names[i]) {
            let ghost before = r@;
            r.push(names[i].clone());
            assert(names_view(r@) =~= names_view(before).push(names@[i as int]@));
        }
        i = i + 1;
    }
    assert(src.subrange(0, i as int) =~= src);
    r
}

/// The associations of `assocs` stripped and pruned as `strip_and_prune` says.
fn copy_stripped(
    assocs: &Vec<TagAssociation>,
    only: Option<&TagTarget>,
    gone: &Vec<String>,
) -> (r: Vec<TagAssociation>)
    ensures
        associations_view(r@) == strip_and_prune(
            associations_view(assocs@),
            match only {
                Some(t) => Some(t@),
                None => None,
            },
            names_view(gone@),
        ),
{
    let ghost src = associations_view(assocs@);
    let ghost o = match only {
        Some(t) => Some(t@),
        None => None::<TargetView>,
    };
    let ghost g = names_view(gone@);
    let mut r: Vec<TagAssociation> = Vec::new();
    let mut i: usize = 0;
    assert(src.subrange(0, 0) =~= Seq::<AssociationView>::empty());
    assert(associations_view(r@) =~= Seq::<AssociationView>::empty());
    while i < assocs.len()
        invariant
            i <= assocs@.len(),
            src == associations_view(assocs@),
            g == names_view(gone@),
            o == match only {
                Some(t) => Some(t@),
                None => None::<TargetView>,
            },
            associations_view(r@) == strip_and_prune(src.subrange(0, i as int), o, g),
        decreases assocs@.len() - i,
    {
        let a = &assocs[i];
        let ghost pre = src.subrange(0, i as int);
        assert(src.subrange(0, i + 1).drop_last() =~= pre);
        assert(src.subrange(0, i + 1).last() == a@);
        let hit = match only {
            None => true,
            Some(t) => a.target == *t,
        };
        let nothing: Vec<String> = Vec::new();
        let names = if hit {
            copy_names_without(&a.tag_names, gone)
        } else {
            copy_names_without(&a.tag_names, &nothing)
        };
        proof {
            if !hit {
                let e = Seq::<Seq<char>>::empty();
                assert(names_view(nothing@) =~= e);
                lemma_names_without_nothing(a@.tag_names);
            }
        }
        if names.len() > 0 {
            let ghost before = r@;
            let b = TagAssociation { target: copy_target(&a.target), tag_names: names };
            r.push(b);
            assert(associations_view(r@) =~= associations_view(before).push(b@));
        }
        i = i + 1;
    }
    assert(src.subrange(0, i as int) =~= src);
    r
}

proof fn lemma_names_without_nothing(names: Seq<Seq<char>>)
    ensures
        names_without(names, Seq::empty()) == names,
    decreases names.len(),
{
    if names.len() > 0 {
        lemma_names_without_nothing(names.drop_last());
        assert(names.drop_last().push(names.last()) =~= names);
    }
}

/// Deletes the tag `name`: takes its name out of every association, drops
/// the associations left empty, and fails with `TagNotFound` (changing
/// nothing) when no tag has that name.
pub fn delete_tag(db: &mut TagsDatabase, name: String) -> (r: TagsResult<()>)
    requires
        old(db).valid(),
    ensures
        final(db).valid(),
        !has_tag(old(db)@.tags, name@) ==> r == Err::<(), TagsError>(TagsError::TagNotFound(name))
            && final(db)@ == old(db)@,
        has_tag(old(db)@.tags, name@) ==> r is Ok && final(db)@ == deleted(old(db)@, name@),
{
    match find_tag(&db.tags, &name) {
        None => {
            return Err(TagsError::TagNotFound(name));
        },
        Some(k) => {
            assert(tags_view(db.tags@)[k as int].name == name@);
        },
    }
    let ghost src = tags_view(db.tags@);
    let mut kept: Vec<Tag> = Vec::new();
    let mut i: usize = 0;
    assert(src.subrange(0, 0) =~= Seq::<TagView>::empty());
    assert(tags_view(kept@) =~= Seq::<TagView>::empty());
    while i < db.tags.len()
        invariant
            i <= db.tags@.len(),
            src == tags_view(db.tags@),
            tags_view(kept@) == tags_without(src.subrange(0, i as int), name@),
        decreases db.tags@.len() - i,
    {
        let t = &db.tags[i];
        assert(src.subrange(0, i + 1).drop_last() =~= src.subrange(0, i as int));
        assert(src.subrange(0, i + 1).last() == t@);
        if t.name != name {
            let ghost before = kept@;
            let c = copy_tag(t);
            kept.push(c);
            assert(tags_view(kept@) =~= tags_view(before).push(c@));
        }
        i = i + 1;
    }
    assert(src.subrange(0, i as int) =~= src);
    let gone = vec![name];
    let assocs = copy_stripped(&db.associations, None, &gone);
    proof {
        assert(names_view(gone@) =~= seq![name@]);
        lemma_tags_without(old(db)@.tags, name@);
        lemma_strip_and_prune(old(db)@.associations, None, seq![name@]);
    }
    db.tags = kept;
    db.associations = assocs;
    Ok(())
}

/// Whether some association in `assocs` is aimed at `t`.
pub open spec fn has_target(assocs: Seq<AssociationView>, t: TargetView) -> bool {
    exists|i: int| 0 <= i < assocs.len() && #[trigger] assocs[i].target == t
}

/// The position of the association aimed at `t`; meaningful when `has_target`.
pub open spec fn target_index(assocs: Seq<AssociationView>, t: TargetView) -> int {
    choose|i: int| 0 <= i < assocs.len() && #[trigger] assocs[i].target == t
}

/// `existing` followed by those of `names` that are not yet there, each
/// once, in the order in which they first appear.
pub open spec fn union_append(existing: Seq<Seq<char>>, names: Seq<Seq<char>>) -> Seq<Seq<char>>
    decreases names.len(),
{
    if names.len() == 0 {
        existing
    } else {
        let u = union_append(existing, names.drop_last());
        if u.contains(names.last()) {
            u
        } else {
            u.push(names.last())
        }
    }
}

/// Whether every one of `names` is the name of a tag in `tags`.
pub open spec fn all_known(tags: Seq<TagView>, names: Seq<Seq<char>>) -> bool {
    forall|k: int| 0 <= k < names.len() ==> has_tag(tags, #[trigger] names[k])
}

/// Whether `names[k]` is the first of `names` that no tag in `tags` has.
pub open spec fn first_unknown(tags: Seq<TagView>, names: Seq<Seq<char>>, k: int) -> bool {
    &&& 0 <= k < names.len()
    &&& !has_tag(tags, names[k])
    &&& forall|j: int| 0 <= j < k ==> has_tag(tags, #[trigger] names[j])
}

/// The database after `names` (all known tags) are attached to `t`: they are
/// appended to the association of `t`, or to a new one at the end, each name
/// once. Attaching no names changes nothing.
pub open spec fn added(db: DatabaseView, t: TargetView, names: Seq<Seq<char>>) -> DatabaseView {
    if names.len() == 0 {
        db
    } else if has_target(db.associations, t) {
        let i = target_index(db.associations, t);
        DatabaseView {
            tags: db.tags,
            associations: db.associations.update(
                i,
                AssociationView {
                    target: t,
                    tag_names: union_append(db.associations[i].tag_names, names),
                },
            ),
        }
    } else {
        DatabaseView {
            tags: db.tags,
            associations: db.associations.push(
                AssociationView { target: t, tag_names: union_append(Seq::empty(), names) },
            ),
        }
    }
}

/// What attaching `names` to `t` does: with every name known it succeeds
/// with `added`; otherwise it fails on the first unknown name and changes
/// nothing.
pub open spec fn add_outcome(
    before: DatabaseView,
    after: DatabaseView,
    r: TagsResult<()>,
    t: TargetView,
    names: Seq<String>,
) -> bool {
    &&& all_known(before.tags, names_view(names)) ==> r is Ok && after == added(
        before,
        t,
        names_view(names),
    )
    &&& forall|k: int|
        first_unknown(before.tags, names_view(names), k) ==> r == Err::<(), TagsError>(
            TagsError::TagNotFound(#[trigger] names[k]),
        ) && after == before
}

/// The database after `names` are detached from `t`; the association of
/// `t` goes if it is left empty. Detaching no names changes nothing.
pub open spec fn removed(db: DatabaseView, t: TargetView, names: Seq<Seq<char>>) -> DatabaseView {
    if names.len() == 0 {
        db
    } else {
        DatabaseView {
            tags: db.tags,
            associations: strip_and_prune(db.associations, Some(t), names),
        }
    }
}

/// The tag of `tags` named `name`, if any.
pub open spec fn lookup(tags: Seq<TagView>, name: Seq<char>) -> Option<TagView> {
    if has_tag(tags, name) {
        Some(tags[choose|i: int| 0 <= i < tags.len() && #[trigger] tags[i].name == name])
    } else {
        None
    }
}

/// The tags that `names` name, in the order of `names`; a name that no tag
/// has is skipped.
pub open spec fn resolve(tags: Seq<TagView>, names: Seq<Seq<char>>) -> Seq<TagView>
    decreases names.len(),
{
    if names.len() == 0 {
        Seq::empty()
    } else {
        let rest = resolve(tags, names.drop_last());
        match lookup(tags, names.last()) {
            Some(t) => rest.push(t),
            None => rest,
        }
    }
}

/// The tags attached to `t`, in the order they were attached.
pub open spec fn tags_of(db: DatabaseView, t: TargetView) -> Seq<TagView> {
    if has_target(db.associations, t) {
        resolve(db.tags, db.associations[target_index(db.associations, t)].tag_names)
    } else {
        Seq::empty()
    }
}

/// The target of a backup.
pub open spec fn backup_target(save_name: Seq<char>, backup_name: Seq<char>) -> TargetView {
    TargetView::Backup { save_name, backup_name }
}

/// The target of a save.
pub open spec fn save_target(relative_path: Seq<char>) -> TargetView {
    TargetView::Save { relative_path }
}

pub(crate) proof fn lemma_union_append(existing: Seq<Seq<char>>, names: Seq<Seq<char>>)
    ensures
        forall|x: Seq<char>| #[trigger]
            union_append(existing, names).contains(x) <==> existing.contains(x) || names.contains(
                x,
            ),
        no_duplicates(existing) ==> no_duplicates(union_append(existing, names)),
        names.len() > 0 ==> union_append(existing, names).len() > 0,
        (forall|k: int| 0 <= k < names.len() ==> existing.contains(#[trigger] names[k]))
            ==> union_append(existing, names) == existing,
    decreases names.len(),
{
    if names.len() > 0 {
        let init = names.drop_last();
        let u = union_append(existing, init);
        lemma_union_append(existing, init);
        lemma_contains_last(names);
        if (forall|k: int| 0 <= k < names.len() ==> existing.contains(#[trigger] names[k])) {
            assert forall|k: int| 0 <= k < init.len() implies existing.contains(
                #[trigger] init[k],
            ) by {
                assert(names[k] == init[k]);
            }
            assert(existing.contains(names[names.len() - 1]));
        }
        if !u.contains(names.last()) {
            let r = u.push(names.last());
            assert(r[r.len() - 1] == names.last());
            assert(r.drop_last() =~= u);
            lemma_contains_last(r);
            if no_duplicates(existing) {
                assert forall|i: int, j: int| 0 <= i < j < r.len() implies r[i] != r[j] by {
                    if j == r.len() - 1 {
                        assert(u.contains(r[i]));
                    }
                }
            }
        }
    }
}

/// Position of the association aimed at `target`, if there is one; the
/// association can then be changed in place.
pub fn find_association_mut(db: &TagsDatabase, target: &TagTarget) -> (r: Option<usize>)
    ensures
        match r {
            Some(i) => i < db@.associations.len() && db@.associations[i as int].target == target@,
            None => !has_target(db@.associations, target@),
        },
{
    let mut i: usize = 0;
    while i < db.associations.len()
        invariant
            i <= db.associations@.len(),
            forall|k: int| 0 <= k < i ==> db.associations@[k].target@ != target@,
        decreases db.associations@.len() - i,
    {
        if db.associations[i].target == *target {
            assert(db@.associations[i as int] == db.associations@[i as int]@);
            return Some(i);
        }
        i = i + 1;
    }
    assert forall|k: int| 0 <= k < db@.associations.len() implies #[trigger] db@.associations[k].target
        != target@ by {
        assert(db@.associations[k] == db.associations@[k]@);
    }
    None
}

/// `existing` followed by those of `names` not yet there, as `union_append` says.
fn merged_names(existing: &Vec<String>, names: &Vec<String>) -> (r: Vec<String>)
    ensures
        names_view(r@) == union_append(names_view(existing@), names_view(names@)),
{
    let ghost e = names_view(existing@);
    let ghost src = names_view(names@);
    let nothing: Vec<String> = Vec::new();
    let mut r = copy_names_without(existing, &nothing);
    proof {
        assert(names_view(nothing@) =~= Seq::<Seq<char>>::empty());
        lemma_names_without_nothing(e);
        assert(src.subrange(0, 0) =~= Seq::<Seq<char>>::empty());
    }
    let mut i: usize = 0;
    while i < names.len()
        invariant
            i <= names@.len(),
            e == names_view(existing@),
            src == names_view(names@),
            names_view(r@) == union_append(e, src.subrange(0, i as int)),
        decreases names@.len() - i,
    {
        assert(src.subrange(0, i + 1).drop_last() =~= src.subrange(0, i as int));
        assert(src.subrange(0, i + 1).last() == names@[i as int]@);
        if !contains_name(&r, &names[i]) {
            let ghost before = r@;
            r.push(names[i].clone());
            assert(names_view(r@) =~= names_view(before).push(names@[i as int]@));
        }
        i = i + 1;
    }
    assert(src.subrange(0, i as int) =~= src);
    r
}

/// Attaches the tags `names` to `target`. Every name must be a known tag:
/// on the first that is not, this fails with `TagNotFound` and attaches
/// nothing. Names already attached are not repeated.
pub fn add_tags_to_target(db: &mut TagsDatabase, target: TagTarget, names: Vec<String>) -> (r:
    TagsResult<()>)
    requires
        old(db).valid(),
    ensures
        final(db).valid(),
        add_outcome(old(db)@, final(db)@, r, target@, names@),
{
    let ghost nv = names_view(names@);
    if names.len() == 0 {
        assert(all_known(db@.tags, nv));
        return Ok(());
    }
    let mut k: usize = 0;
    while k < names.len()
        invariant
            k <= names@.len(),
            nv == names_view(names@),
            *db == *old(db),
            db.valid(),
            forall|j: int| 0 <= j < k ==> has_tag(db@.tags, #[trigger] nv[j]),
        decreases names@.len() - k,
    {
        match find_tag(&db.tags, &names[k]) {
            None => {
                assert(first_unknown(db@.tags, nv, k as int));
                assert forall|j: int| first_unknown(db@.tags, nv, j) implies j == k by {
                    if j < k {
                    } else if j > k {
                        assert(!has_tag(db@.tags, nv[k as int]));
                    }
                }
                return Err(TagsError::TagNotFound(names[k].clone()));
            },
            Some(m) => {
                assert(tags_view(db.tags@)[m as int].name == nv[k as int]);
            },
        }
        k = k + 1;
    }
    assert(all_known(db@.tags, nv));
    assert forall|j: int| !first_unknown(db@.tags, nv, j) by {}
    let ghost before = db@;
    match find_association_mut(db, &target) {
        Some(i) => {
            let merged = merged_names(&db.associations[i].tag_names, &names);
            proof {
                lemma_union_append(before.associations[i as int].tag_names, nv);
                let c = target_index(before.associations, target@);
                assert(c == i as int);
            }
            let a = TagAssociation { target, tag_names: merged };
            db.associations[i] = a;
            assert(associations_view(db.associations@) =~= before.associations.update(
                i as int,
                a@,
            ));
        },
        None => {
            let nothing: Vec<String> = Vec::new();
            let merged = merged_names(&nothing, &names);
            proof {
                assert(names_view(nothing@) =~= Seq::<Seq<char>>::empty());
                lemma_union_append(Seq::empty(), nv);
            }
            let a = TagAssociation { target, tag_names: merged };
            db.associations.push(a);
            assert(associations_view(db.associations@) =~= before.associations.push(a@));
        },
    }
    Ok(())
}

/// Detaches the tags `names` from `target`, and drops the association of
/// `target` if it is left empty. Names that are not attached, and a target
/// with no association, are no error: this never fails.
pub fn remove_tags_from_target(db: &mut TagsDatabase, target: TagTarget, names: Vec<String>)
    requires
        old(db).valid(),
    ensures
        final(db).valid(),
        final(db)@ == removed(old(db)@, target@, names_view(names@)),
{
    if names.len() == 0 {
        return;
    }
    let assocs = copy_stripped(&db.associations, Some(&target), &names);
    proof {
        lemma_strip_and_prune(db@.associations, Some(target@), names_view(names@));
    }
    db.associations = assocs;
}

/// The tags attached to `target`, in the order they were attached; a name
/// that no tag has any more is skipped, and a target with no association
/// has no tags.
pub fn get_target_tags(db: &TagsDatabase, target: &TagTarget) -> (r: Vec<Tag>)
    requires
        db.valid(),
    ensures
        tags_view(r@) == tags_of(db@, target@),
{
    let mut r: Vec<Tag> = Vec::new();
    let i = match find_association_mut(db, target) {
        None => {
            assert(tags_view(r@) =~= Seq::<TagView>::empty());
            return r;
        },
        Some(i) => i,
    };
    proof {
        let c = target_index(db@.associations, target@);
        assert(c == i as int);
    }
    let names = &db.associations[i].tag_names;
    let ghost src = names_view(names@);
    let ghost tv = db@.tags;
    assert(db@.associations[i as int].tag_names == src);
    assert(src.subrange(0, 0) =~= Seq::<Seq<char>>::empty());
    assert(tags_view(r@) =~= Seq::<TagView>::empty());
    let mut k: usize = 0;
    while k < names.len()
        invariant
            k <= names@.len(),
            src == names_view(names@),
            tv == tags_view(db.tags@),
            unique_tag_names(tv),
            tags_view(r@) == resolve(tv, src.subrange(0, k as int)),
        decreases names@.len() - k,
    {
        assert(src.subrange(0, k + 1).drop_last() =~= src.subrange(0, k as int));
        assert(src.subrange(0, k + 1).last() == names@[k as int]@);
        match find_tag(&db.tags, &names[k]) {
            Some(j) => {
                let ghost before = r@;
                let t = copy_tag(&db.tags[j]);
                r.push(t);
                proof {
                    assert(tv[j as int].name == src[k as int]);
                    let c = choose|c: int| 0 <= c < tv.len() && #[trigger] tv[c].name == src[k as int];
                    assert(c == j as int);
                    assert(lookup(tv, src[k as int]) == Some(tv[j as int]));
                }
                assert(tags_view(r@) =~= tags_view(before).push(t@));
            },
            None => {},
        }
        k = k + 1;
    }
    assert(src.subrange(0, k as int) =~= src);
    r
}

/// All tags, in the order they were created.
pub fn get_all_tags(db: &TagsDatabase) -> (r: Vec<Tag>)
    ensures
        tags_view(r@) == db@.tags,
{
    let mut r: Vec<Tag> = Vec::new();
    let mut i: usize = 0;
    while i < db.tags.len()
        invariant
            i <= db.tags@.len(),
            tags_view(r@) == db@.tags.subrange(0, i as int),
        decreases db.tags@.len() - i,
    {
        let ghost before = r@;
        let t = copy_tag(&db.tags[i]);
        r.push(t);
        assert(db@.tags[i as int] == db.tags@[i as int]@);
        assert(tags_view(r@) =~= tags_view(before).push(t@));
        assert(tags_view(r@) =~= db@.tags.subrange(0, i + 1));
        i = i + 1;
    }
    assert(db@.tags.subrange(0, i as int) =~= db@.tags);
    r
}

/// The target of the backup `backup_name` of the save `save_name`.
fn make_backup_target(save_name: &str, backup_name: &str) -> (r: TagTarget)
    ensures
        r@ == backup_target(save_name@, backup_name@),
{
    TagTarget::Backup {
        save_name: String::from_str(save_name),
        backup_name: String::from_str(backup_name),
    }
}

/// The target of the save at `relative_path`.
fn make_save_target(relative_path: &str) -> (r: TagTarget)
    ensures
        r@ == save_target(relative_path@),
{
    TagTarget::Save { relative_path: String::from_str(relative_path) }
}

/// Attaches the tags `tags` to a backup, as `add_tags_to_target` does.
pub fn add_tags_to_backup(
    db: &mut TagsDatabase,
    save_name: &str,
    backup_name: &str,
    tags: Vec<String>,
) -> (r: TagsResult<()>)
    requires
        old(db).valid(),
    ensures
        final(db).valid(),
        add_outcome(old(db)@, final(db)@, r, backup_target(save_name@, backup_name@), tags@),
{
    let target = make_backup_target(save_name, backup_name);
    add_tags_to_target(db, target, tags)
}

/// Detaches the tags `tags` from a backup, as `remove_tags_from_target` does.
pub fn remove_tags_from_backup(
    db: &mut TagsDatabase,
    save_name: &str,
    backup_name: &str,
    tags: Vec<String>,
)
    requires
        old(db).valid(),
    ensures
        final(db).valid(),
        final(db)@ == removed(
            old(db)@,
            backup_target(save_name@, backup_name@),
            names_view(tags@),
        ),
{
    let target = make_backup_target(save_name, backup_name);
    remove_tags_from_target(db, target, tags)
}

/// The tags attached to a backup, as `get_target_tags` gives them.
pub fn get_backup_tags(db: &TagsDatabase, save_name: &str, backup_name: &str) -> (r: Vec<Tag>)
    requires
        db.valid(),
    ensures
        tags_view(r@) == tags_of(db@, backup_target(save_name@, backup_name@)),
{
    let target = make_backup_target(save_name, backup_name);
    get_target_tags(db, &target)
}

/// Attaches the tags `tags` to a save, as `add_tags_to_target` does.
pub fn add_tags_to_save(db: &mut TagsDatabase, relative_path: &str, tags: Vec<String>) -> (r:
    TagsResult<()>)
    requires
        old(db).valid(),
    ensures
        final(db).valid(),
        add_outcome(old(db)@, final(db)@, r, save_target(relative_path@), tags@),
{
    let target = make_save_target(relative_path);
    add_tags_to_target(db, target, tags)
}

/// Detaches the tags `tags` from a save, as `remove_tags_from_target` does.
pub fn remove_tags_from_save(db: &mut TagsDatabase, relative_path: &str, tags: Vec<String>)
    requires
        old(db).valid(),
    ensures
        final(db).valid(),
        final(db)@ == removed(old(db)@, save_target(relative_path@), names_view(tags@)),
{
    let target = make_save_target(relative_path);
    remove_tags_from_target(db, target, tags)
}

/// The tags attached to a save, as `get_target_tags` gives them.
pub fn get_save_tags(db: &TagsDatabase, relative_path: &str) -> (r: Vec<Tag>)
    requires
        db.valid(),
    ensures
        tags_view(r@) == tags_of(db@, save_target(relative_path@)),
{
    let target = make_save_target(relative_path);
    get_target_tags(db, &target)
}

} // verus!
