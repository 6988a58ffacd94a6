//! One pass of the refinement: groups are split by the marks of their
//! members, and what is stated of that.

use vstd::prelude::*;
use crate::data::{metas_view, Meta, MetaView};
use crate::keys::Keys;

verus! {

/// What a pass found out about one file: the bytes that stand for its
/// content in this pass, or nothing if they could not be had.
pub type Id = Option<Seq<u8>>;

/// The value of a computed mark.
pub open spec fn id_view(id: Option<Vec<u8>>) -> Id {
    match id {
        Some(bytes) => Some(bytes@),
        None => None,
    }
}

/// The values of the marks computed for one group.
pub open spec fn ids_view(ids: Seq<Option<Vec<u8>>>) -> Seq<Id> {
    ids.map_values(|id: Option<Vec<u8>>| id_view(id))
}

/// The values of the marks computed for a list of groups.
pub open spec fn all_ids_view(ids: Seq<Vec<Option<Vec<u8>>>>) -> Seq<Seq<Id>> {
    ids.map_values(|group: Vec<Option<Vec<u8>>>| ids_view(group@))
}

/// Whether there is one list of marks for each group and one mark, or the
/// lack of one, for each member.
pub open spec fn same_shape(groups: Seq<Seq<MetaView>>, ids: Seq<Seq<Id>>) -> bool {
    &&& groups.len() == ids.len()
    &&& forall|g: int| 0 <= g < groups.len() ==> (#[trigger] groups[g]).len() == ids[g].len()
}

/// The values of a list of groups.
pub open spec fn groups_view(groups: Seq<Vec<Meta>>) -> Seq<Seq<MetaView>> {
    groups.map_values(|group: Vec<Meta>| metas_view(group@))
}

/// The places in `ids` that carry the mark `key`, in rising order.
pub open spec fn positions(ids: Seq<Id>, key: Seq<u8>) -> Seq<int>
    decreases ids.len(),
{
    if ids.len() == 0 {
        Seq::empty()
    } else {
        let before = positions(ids.drop_last(), key);
        if ids.last() == Some(key) {
            before.push(ids.len() - 1)
        } else {
            before
        }
    }
}

/// The distinct marks in `ids`, each where it first occurs.
pub open spec fn keys_of(ids: Seq<Id>) -> Seq<Seq<u8>>
    decreases ids.len(),
{
    if ids.len() == 0 {
        Seq::empty()
    } else {
        let before = keys_of(ids.drop_last());
        match ids.last() {
            Some(key) => if before.contains(key) {
                before
            } else {
                before.push(key)
            },
            None => before,
        }
    }
}

/// The members at the given places.
pub open spec fn members_at(members: Seq<MetaView>, places: Seq<int>) -> Seq<MetaView> {
    places.map_values(|place: int| members[place])
}

/// The members that carry the mark `key`, in their order in the group.
pub open spec fn class_of(members: Seq<MetaView>, ids: Seq<Id>, key: Seq<u8>) -> Seq<MetaView> {
    members_at(members, positions(ids, key))
}

/// A group split by mark: one class for each distinct mark, in the order in
/// which the marks first occur. Members without a mark are in no class.
pub open spec fn classes(members: Seq<MetaView>, ids: Seq<Id>) -> Seq<Seq<MetaView>> {
    keys_of(ids).map_values(|key: Seq<u8>| class_of(members, ids, key))
}

/// The test for a class that is worth keeping.
pub open spec fn plural() -> spec_fn(Seq<MetaView>) -> bool {
    |class: Seq<MetaView>| class.len() >= 2
}

/// What one pass makes of one group: its classes of two or more members.
pub open spec fn refined_group(members: Seq<MetaView>, ids: Seq<Id>) -> Seq<Seq<MetaView>> {
    classes(members, ids).filter(plural())
}

/// What one pass makes of a list of groups: what it makes of the first, then
/// of the second, and so on.
pub open spec fn refined(groups: Seq<Seq<MetaView>>, ids: Seq<Seq<Id>>) -> Seq<Seq<MetaView>>
    decreases groups.len(),
{
    if groups.len() == 0 {
        Seq::empty()
    } else {
        refined(groups.drop_last(), ids.drop_last()) + refined_group(groups.last(), ids.last())
    }
}

/// One more mark at the end adds its place to the places of that mark and to
/// no others.
pub proof fn lemma_positions_push(ids: Seq<Id>, id: Id, key: Seq<u8>)
    ensures
        positions(ids.push(id), key) == if id == Some(key) {
            positions(ids, key).push(ids.len() as int)
        } else {
            positions(ids, key)
        },
{
    assert(ids.push(id).drop_last() =~= ids);
}

/// One more mark at the end is a new key exactly when it is a mark not seen
/// before.
pub proof fn lemma_keys_push(ids: Seq<Id>, id: Id)
    ensures
        keys_of(ids.push(id)) == match id {
            Some(key) => if keys_of(ids).contains(key) {
                keys_of(ids)
            } else {
                keys_of(ids).push(key)
            },
            None => keys_of(ids),
        },
{
    assert(ids.push(id).drop_last() =~= ids);
}

/// Every place listed for a mark lies in the group and carries that mark, and
/// the places rise.
pub proof fn lemma_positions_sound(ids: Seq<Id>, key: Seq<u8>)
    ensures
        positions(ids, key).len() <= ids.len(),
        forall|j: int|
            0 <= j < positions(ids, key).len() ==> {
                &&& 0 <= #[trigger] positions(ids, key)[j] < ids.len()
                &&& ids[positions(ids, key)[j]] == Some(key)
            },
        forall|i: int, j: int|
            0 <= i < j < positions(ids, key).len() ==> positions(ids, key)[i] < positions(
                ids,
                key,
            )[j],
    decreases ids.len(),
{
    if ids.len() > 0 {
        lemma_positions_sound(ids.drop_last(), key);
    }
}

/// Every place that carries a mark is listed for it.
pub proof fn lemma_positions_complete(ids: Seq<Id>, key: Seq<u8>, place: int)
    requires
        0 <= place < ids.len(),
        ids[place] == Some(key),
    ensures
        positions(ids, key).contains(place),
    decreases ids.len(),
{
    if place == ids.len() - 1 {
        let listed = positions(ids, key);
        assert(listed[listed.len() - 1] == place);
    } else {
        lemma_positions_complete(ids.drop_last(), key, place);
        let before = positions(ids.drop_last(), key);
        let at = choose|j: int| 0 <= j < before.len() && before[j] == place;
        assert(positions(ids, key)[at] == place);
    }
}

/// The keys are exactly the marks that occur, and none is listed twice.
pub proof fn lemma_keys_sound(ids: Seq<Id>)
    ensures
        keys_of(ids).no_duplicates(),
        forall|key: Seq<u8>| keys_of(ids).contains(key) <==> ids.contains(Some(key)),
    decreases ids.len(),
{
    if ids.len() == 0 {
    } else {
        let init = ids.drop_last();
        lemma_keys_sound(init);
        let before = keys_of(init);
        assert forall|key: Seq<u8>| keys_of(ids).contains(key) <==> ids.contains(
            Some(key),
        ) by {
            if keys_of(ids).contains(key) {
                let j = choose|j: int| 0 <= j < keys_of(ids).len() && keys_of(ids)[j] == key;
                if j < before.len() {
                    assert(before[j] == key);
                    assert(before.contains(key));
                    assert(init.contains(Some(key)));
                    let at = choose|i: int| 0 <= i < init.len() && init[i] == Some(key);
                    assert(ids[at] == Some(key));
                } else {
                    assert(ids[ids.len() - 1] == Some(key));
                }
            }
            if ids.contains(Some(key)) {
                let at = choose|i: int| 0 <= i < ids.len() && ids[i] == Some(key);
                if at < init.len() {
                    assert(init[at] == Some(key));
                    assert(init.contains(Some(key)));
                    assert(before.contains(key));
                    let j = choose|j: int| 0 <= j < before.len() && before[j] == key;
                    assert(keys_of(ids)[j] == key);
                } else {
                    if before.contains(key) {
                        let j = choose|j: int| 0 <= j < before.len() && before[j] == key;
                        assert(keys_of(ids)[j] == key);
                    } else {
                        assert(keys_of(ids)[before.len() as int] == key);
                    }
                }
            }
        }
    }
}

/// A mark that is no key has no places.
pub proof fn lemma_positions_of_absent_key(ids: Seq<Id>, key: Seq<u8>)
    requires
        !keys_of(ids).contains(key),
    ensures
        positions(ids, key).len() == 0,
{
    lemma_keys_sound(ids);
    lemma_positions_sound(ids, key);
    if positions(ids, key).len() > 0 {
        let place = positions(ids, key)[0];
        assert(ids[place] == Some(key));
        assert(ids.contains(Some(key)));
    }
}

/// Splits one group by mark and keeps the classes of two or more. Classes
/// come in the order in which their marks first occur, members in the order
/// they had in the group. A member without a mark is dropped.
pub fn refine_group(group: &Vec<Meta>, marks: &Vec<Option<Vec<u8>>>) -> (res: Vec<Vec<Meta>>)
    requires
        group@.len() == marks@.len(),
    ensures
        groups_view(res@) == refined_group(metas_view(group@), ids_view(marks@)),
{
    let ghost members = metas_view(group@);
    let ghost ids = ids_view(marks@);
    let mut keys = Keys::new();
    let mut buckets: Vec<Vec<Meta>> = Vec::new();
    let mut i: usize = 0;
    proof {
        assert(ids.take(0) =~= Seq::<Id>::empty());
        assert(keys@ =~= keys_of(ids.take(0)));
    }
    while i < group.len()
        invariant
            i <= group.len() == marks.len(),
            members == metas_view(group@),
            ids == ids_view(marks@),
            keys@ == keys_of(ids.take(i as int)),
            buckets.len() == keys@.len(),
            forall|j: int|
                0 <= j < buckets.len() ==> metas_view(#[trigger] buckets@[j]@) == members_at(
                    members,
                    positions(ids.take(i as int), keys@[j]),
                ),
        decreases group.len() - i,
    {
        let ghost seen = ids.take(i as int);
        let ghost id = ids[i as int];
        let ghost k0 = keys@;
        let ghost b0 = buckets@;
        proof {
            assert(ids.take(i + 1) =~= seen.push(id));
            lemma_keys_push(seen, id);
            assert forall|key: Seq<u8>| true implies #[trigger] positions(ids.take(i + 1), key)
                == if id == Some(key) {
                positions(seen, key).push(i as int)
            } else {
                positions(seen, key)
            } by {
                lemma_positions_push(seen, id, key);
            }
        }
        let member = &group[i];
        assert(member@ == members[i as int]);
        assert(id_view(marks@[i as int]) == id);
        match &marks[i] {
            None => {},
            Some(bytes) => {
                match keys.find(bytes.as_slice()) {
                    Some(j) => {
                        let mut bucket: Vec<Meta> = Vec::new();
                        core::mem::swap(&mut bucket, &mut buckets[j]);
                        assert(bucket@ == b0[j as int]@);
                        let copy = member.clone();
                        bucket.push(copy);
                        let ghost grown = bucket@;
                        assert(metas_view(grown) =~= metas_view(b0[j as int]@).push(member@));
                        core::mem::swap(&mut bucket, &mut buckets[j]);
                        proof {
                            assert(buckets@[j as int]@ == grown);
                            assert(buckets@.len() == b0.len());
                            assert(forall|t: int|
                                0 <= t < b0.len() && t != j ==> buckets@[t] == b0[t]);
                            assert(k0.contains(bytes@));
                            assert forall|t: int| 0 <= t < buckets.len() implies metas_view(
                                #[trigger] buckets@[t]@,
                            ) == members_at(
                                members,
                                positions(ids.take(i + 1), keys@[t]),
                            ) by {
                                assert(metas_view(b0[t]@) == members_at(
                                    members,
                                    positions(seen, k0[t]),
                                ));
                                if t == j {
                                    assert(metas_view(buckets@[t]@) =~= members_at(
                                        members,
                                        positions(seen, bytes@).push(i as int),
                                    ));
                                } else {
                                    lemma_keys_sound(seen);
                                    assert(k0[t] != k0[j as int]);
                                }
                            }
                        }
                    },
                    None => {
                        let mut bucket: Vec<Meta> = Vec::new();
                        bucket.push(member.clone());
                        let key = bytes.clone();
                        proof {
                            lemma_positions_of_absent_key(seen, bytes@);
                        }
                        keys = keys.push(key);
                        buckets.push(bucket);
                        proof {
                            assert forall|t: int| 0 <= t < buckets.len() implies metas_view(
                                #[trigger] buckets@[t]@,
                            ) == members_at(
                                members,
                                positions(ids.take(i + 1), keys@[t]),
                            ) by {
                                if t < b0.len() {
                                    assert(metas_view(b0[t]@) == members_at(
                                        members,
                                        positions(seen, k0[t]),
                                    ));
                                    assert(k0.contains(k0[t]));
                                } else {
                                    assert(metas_view(buckets@[t]@) =~= members_at(
                                        members,
                                        Seq::<int>::empty().push(i as int),
                                    ));
                                }
                            }
                        }
                    },
                }
            },
        }
        i += 1;
    }
    proof {
        assert(ids.take(group.len() as int) =~= ids);
        assert(groups_view(buckets@) =~= classes(members, ids));
    }
    keep_plural(buckets)
}

/// The groups of two or more among `groups`, in order.
fn keep_plural(groups: Vec<Vec<Meta>>) -> (res: Vec<Vec<Meta>>)
    ensures
        groups_view(res@) == groups_view(groups@).filter(plural()),
{
    let ghost all = groups_view(groups@);
    let ghost total = groups@.len();
    let mut rest = crate::vecs::reversed(groups);
    let mut res: Vec<Vec<Meta>> = Vec::new();
    proof {
        assert(all.take(0) =~= Seq::<Seq<MetaView>>::empty());
        reveal(Seq::filter);
        assert(groups_view(res@) =~= all.take(0).filter(plural()));
    }
    while rest.len() > 0
        invariant
            rest@.len() <= total == all.len(),
            groups_view(rest@).reverse() == all.skip(total - rest@.len()),
            groups_view(res@) == all.take(total - rest@.len()).filter(plural()),
        decreases rest.len(),
    {
        let ghost r0 = rest@;
        let ghost done = total - rest@.len();
        let ghost out0 = res@;
        let group = rest.pop().unwrap();
        proof {
            assert(groups_view(r0).reverse()[0] == metas_view(group@));
            assert(all[done] == metas_view(group@));
            assert(all.take(done + 1) =~= all.take(done).push(all[done]));
            all.take(done).lemma_filter_push(all[done], plural());
            assert forall|k: int| 0 <= k < rest@.len() implies groups_view(rest@).reverse()[k]
                == all.skip(done + 1)[k] by {
                assert(groups_view(r0).reverse()[k + 1] == all.skip(done)[k + 1]);
            }
            assert(groups_view(rest@).reverse() =~= all.skip(done + 1));
        }
        if group.len() >= 2 {
            res.push(group);
            assert(groups_view(res@) =~= groups_view(out0).push(all[done]));
        }
    }
    proof {
        assert(all.take(total as int) =~= all);
    }
    res
}

/// One pass over all groups: each group is split by the marks of its
/// members, and the classes of two or more members are the new groups. A
/// member whose mark could not be computed is dropped. The new groups come
/// in the order of the groups they came from.
pub fn refine(groups: &Vec<Vec<Meta>>, marks: &Vec<Vec<Option<Vec<u8>>>>) -> (res: Vec<Vec<Meta>>)
    requires
        same_shape(groups_view(groups@), all_ids_view(marks@)),
    ensures
        groups_view(res@) == refined(groups_view(groups@), all_ids_view(marks@)),
{
    let ghost members = groups_view(groups@);
    let ghost ids = all_ids_view(marks@);
    let mut res: Vec<Vec<Meta>> = Vec::new();
    let mut g: usize = 0;
    proof {
        assert(groups_view(res@) =~= refined(members.take(0), ids.take(0)));
    }
    while g < groups.len()
        invariant
            g <= groups.len(),
            same_shape(members, ids),
            members == groups_view(groups@),
            ids == all_ids_view(marks@),
            groups_view(res@) == refined(members.take(g as int), ids.take(g as int)),
        decreases groups.len() - g,
    {
        let ghost out0 = res@;
        assert(members[g as int].len() == ids[g as int].len());
        let mut more = refine_group(&groups[g], &marks[g]);
        proof {
            assert(members.take(g + 1).drop_last() =~= members.take(g as int));
            assert(ids.take(g + 1).drop_last() =~= ids.take(g as int));
            assert(members.take(g + 1).last() == metas_view(groups@[g as int]@));
            assert(ids.take(g + 1).last() == ids_view(marks@[g as int]@));
        }
        let ghost added = more@;
        res.append(&mut more);
        proof {
            assert(groups_view(res@) =~= groups_view(out0) + groups_view(added));
        }
        g += 1;
    }
    proof {
        assert(members.take(groups.len() as int) =~= members);
        assert(ids.take(groups.len() as int) =~= ids);
    }
    res
}

/// The marks that `mark` gives to the members of each group.
pub open spec fn marks(mark: spec_fn(MetaView) -> Id, groups: Seq<Seq<MetaView>>) -> Seq<Seq<Id>> {
    groups.map_values(|group: Seq<MetaView>| group.map_values(mark))
}

/// One pass over `groups` where `mark` says what the mark of each file is.
pub open spec fn refined_by(mark: spec_fn(MetaView) -> Id, groups: Seq<Seq<MetaView>>) -> Seq<
    Seq<MetaView>,
> {
    refined(groups, marks(mark, groups))
}

/// Whether all of `group` carry the same mark under `mark`, and do carry one.
pub open spec fn uniform(mark: spec_fn(MetaView) -> Id, group: Seq<MetaView>) -> bool {
    forall|a: int, b: int|
        0 <= a < group.len() && 0 <= b < group.len() ==> mark(#[trigger] group[a]) is Some && mark(
            group[a],
        ) == mark(#[trigger] group[b])
}

/// Whether every item of `inner` is an item of `outer`.
pub open spec fn within(inner: Seq<MetaView>, outer: Seq<MetaView>) -> bool {
    forall|a: int| 0 <= a < inner.len() ==> outer.contains(#[trigger] inner[a])
}

/// Each group that a pass makes of one group is, for some mark, the class of
/// two or more members that carry it.
pub proof fn lemma_refined_group_is_classes(members: Seq<MetaView>, ids: Seq<Id>, j: int)
    requires
        0 <= j < refined_group(members, ids).len(),
    ensures
        refined_group(members, ids)[j].len() >= 2,
        exists|key: Seq<u8>|
            keys_of(ids).contains(key) && refined_group(members, ids)[j] == #[trigger] class_of(
                members,
                ids,
                key,
            ),
{
    let all = classes(members, ids);
    let out = all.filter(plural());
    all.lemma_filter_pred(plural(), j);
    assert(out.contains(out[j]));
    all.lemma_filter_contains_rev(plural(), out[j]);
    let t = choose|t: int| 0 <= t < all.len() && all[t] == out[j];
    let key = keys_of(ids)[t];
    assert(keys_of(ids).contains(key));
    assert(out[j] == class_of(members, ids, key));
}

/// Each group that a pass puts out comes from one of the groups it was given:
/// it is, for some mark, the class of that group's members that carry it.
pub proof fn lemma_refined_is_classes(groups: Seq<Seq<MetaView>>, ids: Seq<Seq<Id>>, j: int)
    requires
        groups.len() == ids.len(),
        0 <= j < refined(groups, ids).len(),
    ensures
        refined(groups, ids)[j].len() >= 2,
        exists|g: int, key: Seq<u8>|
            0 <= g < groups.len() && keys_of(ids[g]).contains(key) && refined(groups, ids)[j]
                == #[trigger] class_of(groups[g], ids[g], key),
    decreases groups.len(),
{
    if groups.len() > 0 {
        let before = refined(groups.drop_last(), ids.drop_last());
        if j < before.len() {
            lemma_refined_is_classes(groups.drop_last(), ids.drop_last(), j);
            let (g, key) = choose|g: int, key: Seq<u8>|
                0 <= g < groups.drop_last().len() && keys_of(ids.drop_last()[g]).contains(key)
                    && before[j] == #[trigger] class_of(
                    groups.drop_last()[g],
                    ids.drop_last()[g],
                    key,
                );
            assert(refined(groups, ids)[j] == class_of(groups[g], ids[g], key));
        } else {
            lemma_refined_group_is_classes(groups.last(), ids.last(), j - before.len());
            let key = choose|key: Seq<u8>|
                keys_of(ids.last()).contains(key) && refined_group(groups.last(), ids.last())[j
                    - before.len()] == #[trigger] class_of(groups.last(), ids.last(), key);
            let g = groups.len() - 1;
            assert(refined(groups, ids)[j] == class_of(groups[g], ids[g], key));
        }
    }
}

/// The members of a class are members of the group, each at a place that
/// carries the class's mark.
pub proof fn lemma_class_members(members: Seq<MetaView>, ids: Seq<Id>, key: Seq<u8>, t: int)
    requires
        members.len() == ids.len(),
        0 <= t < class_of(members, ids, key).len(),
    ensures
        0 <= positions(ids, key)[t] < members.len(),
        class_of(members, ids, key)[t] == members[positions(ids, key)[t]],
        ids[positions(ids, key)[t]] == Some(key),
{
    lemma_positions_sound(ids, key);
}

/// Pass monotonicity: whatever a pass puts out was put in. Every member of
/// every new group is a member of one of the groups given.
pub proof fn lemma_refined_within(groups: Seq<Seq<MetaView>>, ids: Seq<Seq<Id>>, j: int)
    requires
        groups.len() == ids.len(),
        forall|g: int| 0 <= g < groups.len() ==> (#[trigger] groups[g]).len() == ids[g].len(),
        0 <= j < refined(groups, ids).len(),
    ensures
        exists|g: int| 0 <= g < groups.len() && within(refined(groups, ids)[j], #[trigger] groups[g]),
{
    lemma_refined_is_classes(groups, ids, j);
    let out = refined(groups, ids)[j];
    let (g, key) = choose|g: int, key: Seq<u8>|
        0 <= g < groups.len() && keys_of(ids[g]).contains(key) && out == #[trigger] class_of(
            groups[g],
            ids[g],
            key,
        );
    assert forall|a: int| 0 <= a < out.len() implies groups[g].contains(#[trigger] out[a]) by {
        lemma_class_members(groups[g], ids[g], key, a);
    }
    assert(within(out, groups[g]));
}

/// Agreement within a group: when every file has one mark, all members of
/// each group that the pass puts out carry the same mark, and there are at
/// least two of them.
pub proof fn lemma_refined_uniform(mark: spec_fn(MetaView) -> Id, groups: Seq<Seq<MetaView>>, j: int)
    requires
        0 <= j < refined_by(mark, groups).len(),
    ensures
        refined_by(mark, groups)[j].len() >= 2,
        uniform(mark, refined_by(mark, groups)[j]),
{
    let ids = marks(mark, groups);
    lemma_refined_is_classes(groups, ids, j);
    let out = refined(groups, ids)[j];
    let (g, key) = choose|g: int, key: Seq<u8>|
        0 <= g < groups.len() && keys_of(ids[g]).contains(key) && out == #[trigger] class_of(
            groups[g],
            ids[g],
            key,
        );
    assert forall|a: int| 0 <= a < out.len() implies mark(#[trigger] out[a]) == Some(key) by {
        lemma_class_members(groups[g], ids[g], key, a);
    }
}

/// A group whose members all carry one mark is its own single class.
pub proof fn lemma_uniform_group(mark: spec_fn(MetaView) -> Id, group: Seq<MetaView>)
    requires
        group.len() >= 1,
        uniform(mark, group),
    ensures
        keys_of(group.map_values(mark)) == seq![mark(group[0])->0],
        positions(group.map_values(mark), mark(group[0])->0) == Seq::new(
            group.len(),
            |i: int| i,
        ),
        classes(group, group.map_values(mark)) == seq![group],
    decreases group.len(),
{
    let ids = group.map_values(mark);
    let key = mark(group[0])->0;
    assert(mark(group[0]) is Some);
    if group.len() == 1 {
        assert(ids.drop_last() =~= Seq::<Id>::empty());
        assert(keys_of(ids.drop_last()) =~= Seq::<Seq<u8>>::empty());
        assert(positions(ids.drop_last(), key) =~= Seq::<int>::empty());
        assert(keys_of(ids) =~= seq![key]);
        assert(positions(ids, key) =~= Seq::new(1, |i: int| i));
    } else {
        let init = group.drop_last();
        assert(uniform(mark, init)) by {
            assert forall|a: int, b: int|
                0 <= a < init.len() && 0 <= b < init.len() implies mark(#[trigger] init[a]) is Some
                && mark(init[a]) == mark(#[trigger] init[b]) by {
                assert(init[a] == group[a] && init[b] == group[b]);
            }
        }
        lemma_uniform_group(mark, init);
        assert(init.map_values(mark) =~= ids.drop_last());
        assert(init[0] == group[0]);
        assert(mark(group[group.len() - 1]) == mark(group[0]));
        assert(ids.last() == Some(key));
        assert(seq![key].contains(key)) by {
            assert(seq![key][0] == key);
        }
        assert(keys_of(ids) =~= seq![key]);
        assert(positions(ids, key) =~= Seq::new(group.len(), |i: int| i));
    }
    assert(class_of(group, ids, key) =~= group);
    assert(classes(group, ids) =~= seq![group]);
}

/// A pass leaves alone a list of groups that already agree: if each group
/// has two or more members and they all carry one mark, the pass gives the
/// same list back.
pub proof fn lemma_refined_fixpoint(mark: spec_fn(MetaView) -> Id, groups: Seq<Seq<MetaView>>)
    requires
        forall|g: int|
            0 <= g < groups.len() ==> (#[trigger] groups[g]).len() >= 2 && uniform(mark, groups[g]),
    ensures
        refined_by(mark, groups) == groups,
    decreases groups.len(),
{
    if groups.len() == 0 {
        assert(refined_by(mark, groups) =~= groups);
    } else {
        let init = groups.drop_last();
        let last = groups.last();
        assert forall|g: int| 0 <= g < init.len() implies (#[trigger] init[g]).len() >= 2
            && uniform(mark, init[g]) by {
            assert(init[g] == groups[g]);
        }
        lemma_refined_fixpoint(mark, init);
        assert(marks(mark, groups).drop_last() =~= marks(mark, init));
        assert(marks(mark, groups).last() == last.map_values(mark));
        lemma_uniform_group(mark, last);
        assert(refined_group(last, last.map_values(mark)) == seq![last]) by {
            reveal_with_fuel(Seq::filter, 2);
            let all = seq![last];
            assert(all.drop_last() =~= Seq::<Seq<MetaView>>::empty());
            assert(all.filter(plural()) =~= seq![last]);
        }
        assert(refined_by(mark, groups) =~= init + seq![last]);
        assert(init + seq![last] =~= groups);
    }
}

/// Idempotence: a pass applied to its own result changes nothing.
pub proof fn lemma_refined_idempotent(mark: spec_fn(MetaView) -> Id, groups: Seq<Seq<MetaView>>)
    ensures
        refined_by(mark, refined_by(mark, groups)) == refined_by(mark, groups),
{
    let once = refined_by(mark, groups);
    assert forall|g: int| 0 <= g < once.len() implies (#[trigger] once[g]).len() >= 2 && uniform(
        mark,
        once[g],
    ) by {
        lemma_refined_uniform(mark, groups, g);
    }
    lemma_refined_fixpoint(mark, once);
}

/// What a run of passes makes of `groups`: each pass works on what the
/// passes before it left.
pub open spec fn refined_through(
    passes: Seq<spec_fn(MetaView) -> Id>,
    groups: Seq<Seq<MetaView>>,
) -> Seq<Seq<MetaView>>
    decreases passes.len(),
{
    if passes.len() == 0 {
        groups
    } else {
        refined_by(passes.last(), refined_through(passes.drop_last(), groups))
    }
}

/// Members of a group that agree still agree when some of them are taken
/// away.
pub proof fn lemma_uniform_within(
    mark: spec_fn(MetaView) -> Id,
    inner: Seq<MetaView>,
    outer: Seq<MetaView>,
)
    requires
        within(inner, outer),
        uniform(mark, outer),
    ensures
        uniform(mark, inner),
{
    assert forall|a: int, b: int| 0 <= a < inner.len() && 0 <= b < inner.len() implies mark(
        #[trigger] inner[a],
    ) is Some && mark(inner[a]) == mark(#[trigger] inner[b]) by {
        assert(outer.contains(inner[a]));
        assert(outer.contains(inner[b]));
        let x = choose|x: int| 0 <= x < outer.len() && outer[x] == inner[a];
        let y = choose|y: int| 0 <= y < outer.len() && outer[y] == inner[b];
        assert(mark(outer[x]) is Some && mark(outer[x]) == mark(outer[y]));
    }
}

/// Agreement through the pipeline: after a run of passes, the members of
/// every group carry the same mark under each of the passes that ran, not
/// only under the last, and every group has at least two members.
pub proof fn lemma_refined_through_uniform(
    passes: Seq<spec_fn(MetaView) -> Id>,
    groups: Seq<Seq<MetaView>>,
    k: int,
    j: int,
)
    requires
        0 <= k < passes.len(),
        0 <= j < refined_through(passes, groups).len(),
    ensures
        refined_through(passes, groups)[j].len() >= 2,
        uniform(passes[k], refined_through(passes, groups)[j]),
    decreases passes.len(),
{
    let before = refined_through(passes.drop_last(), groups);
    let last = passes.last();
    lemma_refined_uniform(last, before, j);
    if k < passes.len() - 1 {
        let ids = marks(last, before);
        lemma_refined_within(before, ids, j);
        let g = choose|g: int|
            0 <= g < before.len() && within(refined(before, ids)[j], #[trigger] before[g]);
        lemma_refined_through_uniform(passes.drop_last(), groups, k, g);
        assert(passes.drop_last()[k] == passes[k]);
        lemma_uniform_within(passes[k], refined(before, ids)[j], before[g]);
    }
}

/// Whether `group` holds both `x` and `y`.
pub open spec fn holds_both(group: Seq<MetaView>, x: MetaView, y: MetaView) -> bool {
    group.contains(x) && group.contains(y)
}

/// What a pass makes of one group is among what it makes of all.
pub proof fn lemma_refined_has_group(
    groups: Seq<Seq<MetaView>>,
    ids: Seq<Seq<Id>>,
    g: int,
    class: Seq<MetaView>,
)
    requires
        groups.len() == ids.len(),
        0 <= g < groups.len(),
        refined_group(groups[g], ids[g]).contains(class),
    ensures
        refined(groups, ids).contains(class),
    decreases groups.len(),
{
    let before = refined(groups.drop_last(), ids.drop_last());
    let last = refined_group(groups.last(), ids.last());
    if g == groups.len() - 1 {
        let t = choose|t: int| 0 <= t < last.len() && last[t] == class;
        assert(refined(groups, ids)[before.len() + t] == class);
    } else {
        assert(groups.drop_last()[g] == groups[g]);
        assert(ids.drop_last()[g] == ids[g]);
        lemma_refined_has_group(groups.drop_last(), ids.drop_last(), g, class);
        let t = choose|t: int| 0 <= t < before.len() && before[t] == class;
        assert(refined(groups, ids)[t] == class);
    }
}

/// Two members of one group that carry the same mark are in one group
/// after the pass.
pub proof fn lemma_pass_keeps_together(
    mark: spec_fn(MetaView) -> Id,
    groups: Seq<Seq<MetaView>>,
    g: int,
    x: MetaView,
    y: MetaView,
)
    requires
        0 <= g < groups.len(),
        holds_both(groups[g], x, y),
        x != y,
        mark(x) is Some,
        mark(x) == mark(y),
    ensures
        exists|t: int|
            0 <= t < refined_by(mark, groups).len() && holds_both(
                #[trigger] refined_by(mark, groups)[t],
                x,
                y,
            ),
{
    let members = groups[g];
    let ids = members.map_values(mark);
    let key = mark(x)->0;
    let a = choose|a: int| 0 <= a < members.len() && members[a] == x;
    let b = choose|b: int| 0 <= b < members.len() && members[b] == y;
    assert(ids[a] == Some(key) && ids[b] == Some(key));
    lemma_positions_complete(ids, key, a);
    lemma_positions_complete(ids, key, b);
    let listed = positions(ids, key);
    let u = choose|u: int| 0 <= u < listed.len() && listed[u] == a;
    let v = choose|v: int| 0 <= v < listed.len() && listed[v] == b;
    let class = class_of(members, ids, key);
    assert(class[u] == x);
    assert(class[v] == y);
    assert(u != v);
    assert(class.len() >= 2);
    lemma_keys_sound(ids);
    assert(ids.contains(Some(key)));
    assert(keys_of(ids).contains(key));
    let all = classes(members, ids);
    let k = choose|k: int| 0 <= k < keys_of(ids).len() && keys_of(ids)[k] == key;
    assert(all[k] == class);
    all.lemma_filter_contains(plural(), k);
    assert(marks(mark, groups)[g] == ids);
    lemma_refined_has_group(groups, marks(mark, groups), g, class);
    let out = refined_by(mark, groups);
    let t = choose|t: int| 0 <= t < out.len() && out[t] == class;
    assert(holds_both(out[t], x, y));
}

/// Twins stay together: two different members of one group that carry the
/// same mark under every pass of a run are members of one group after the
/// run. So a file whose content another file shares is reported, and in a
/// group with that other file.
pub proof fn lemma_twins_stay_together(
    passes: Seq<spec_fn(MetaView) -> Id>,
    groups: Seq<Seq<MetaView>>,
    g: int,
    x: MetaView,
    y: MetaView,
)
    requires
        0 <= g < groups.len(),
        holds_both(groups[g], x, y),
        x != y,
        forall|k: int|
            0 <= k < passes.len() ==> (#[trigger] passes[k])(x) is Some && passes[k](x) == passes[k](
                y,
            ),
    ensures
        exists|t: int|
            0 <= t < refined_through(passes, groups).len() && holds_both(
                #[trigger] refined_through(passes, groups)[t],
                x,
                y,
            ),
    decreases passes.len(),
{
    if passes.len() == 0 {
        assert(holds_both(refined_through(passes, groups)[g], x, y));
    } else {
        let init = passes.drop_last();
        assert forall|k: int| 0 <= k < init.len() implies (#[trigger] init[k])(x) is Some && init[k](
            x,
        ) == init[k](y) by {
            assert(0 <= k < passes.len());
            assert(init[k] == passes[k]);
        }
        lemma_twins_stay_together(init, groups, g, x, y);
        let before = refined_through(init, groups);
        let h = choose|h: int| 0 <= h < before.len() && holds_both(#[trigger] before[h], x, y);
        assert(passes[passes.len() - 1](x) is Some);
        lemma_pass_keeps_together(passes.last(), before, h, x, y);
        let after = refined_by(passes.last(), before);
        assert(refined_through(passes, groups) == after);
        let t = choose|t: int| 0 <= t < after.len() && holds_both(#[trigger] after[t], x, y);
        assert(holds_both(refined_through(passes, groups)[t], x, y));
    }
}

/// Whether the two lists have no item in common.
pub open spec fn disjoint(a: Seq<MetaView>, b: Seq<MetaView>) -> bool {
    forall|i: int, j: int| 0 <= i < a.len() && 0 <= j < b.len() ==> #[trigger] a[i] != #[trigger] b[j]
}

/// Whether every file occurs once at most: no group holds one twice, and no
/// two groups share one.
pub open spec fn apart(groups: Seq<Seq<MetaView>>) -> bool {
    &&& forall|t: int| 0 <= t < groups.len() ==> (#[trigger] groups[t]).no_duplicates()
    &&& forall|t: int, v: int|
        0 <= t < groups.len() && 0 <= v < groups.len() && t != v ==> disjoint(
            #[trigger] groups[t],
            #[trigger] groups[v],
        )
}

/// The classes of a group without repeats are apart, and hold members of
/// the group only.
pub proof fn lemma_classes_apart(members: Seq<MetaView>, ids: Seq<Id>)
    requires
        members.len() == ids.len(),
        members.no_duplicates(),
    ensures
        apart(classes(members, ids)),
        forall|t: int|
            0 <= t < classes(members, ids).len() ==> within(
                #[trigger] classes(members, ids)[t],
                members,
            ),
{
    let all = classes(members, ids);
    let keys = keys_of(ids);
    lemma_keys_sound(ids);
    assert forall|t: int| 0 <= t < all.len() implies (#[trigger] all[t]).no_duplicates() && within(
        all[t],
        members,
    ) by {
        lemma_positions_sound(ids, keys[t]);
        let listed = positions(ids, keys[t]);
        assert forall|i: int, j: int|
            0 <= i < all[t].len() && 0 <= j < all[t].len() && i != j implies all[t][i]
            != all[t][j] by {
            if i < j {
                assert(listed[i] < listed[j]);
            } else {
                assert(listed[j] < listed[i]);
            }
        }
        assert forall|a: int| 0 <= a < all[t].len() implies members.contains(
            #[trigger] all[t][a],
        ) by {
            assert(all[t][a] == members[listed[a]]);
        }
    }
    assert forall|t: int, v: int|
        0 <= t < all.len() && 0 <= v < all.len() && t != v implies disjoint(
        #[trigger] all[t],
        #[trigger] all[v],
    ) by {
        lemma_positions_sound(ids, keys[t]);
        lemma_positions_sound(ids, keys[v]);
        let first = positions(ids, keys[t]);
        let second = positions(ids, keys[v]);
        assert(keys[t] != keys[v]);
        assert forall|i: int, j: int|
            0 <= i < all[t].len() && 0 <= j < all[v].len() implies #[trigger] all[t][i]
            != #[trigger] all[v][j] by {
            assert(ids[first[i]] == Some(keys[t]));
            assert(ids[second[j]] == Some(keys[v]));
            assert(first[i] != second[j]);
        }
    }
}

/// A choice among groups that are apart is apart, and holds groups of the
/// given ones only.
pub proof fn lemma_filter_apart(groups: Seq<Seq<MetaView>>, pred: spec_fn(Seq<MetaView>) -> bool)
    requires
        apart(groups),
    ensures
        apart(groups.filter(pred)),
        forall|t: int|
            0 <= t < groups.filter(pred).len() ==> groups.contains(
                #[trigger] groups.filter(pred)[t],
            ),
    decreases groups.len(),
{
    reveal(Seq::filter);
    if groups.len() > 0 {
        let init = groups.drop_last();
        let last = groups.last();
        assert(apart(init)) by {
            assert forall|t: int| 0 <= t < init.len() implies (#[trigger] init[t]).no_duplicates() by {
                assert(init[t] == groups[t]);
            }
            assert forall|t: int, v: int|
                0 <= t < init.len() && 0 <= v < init.len() && t != v implies disjoint(
                #[trigger] init[t],
                #[trigger] init[v],
            ) by {
                assert(init[t] == groups[t] && init[v] == groups[v]);
            }
        }
        lemma_filter_apart(init, pred);
        let before = init.filter(pred);
        let out = groups.filter(pred);
        assert forall|t: int| 0 <= t < out.len() implies groups.contains(#[trigger] out[t]) by {
            if t < before.len() {
                assert(out[t] == before[t]);
                assert(init.contains(before[t]));
                let a = choose|a: int| 0 <= a < init.len() && init[a] == before[t];
                assert(groups[a] == before[t]);
            } else {
                assert(out[t] == groups[groups.len() - 1]);
            }
        }
        assert forall|t: int| 0 <= t < out.len() implies (#[trigger] out[t]).no_duplicates() by {
            assert(groups.contains(out[t]));
            let a = choose|a: int| 0 <= a < groups.len() && groups[a] == out[t];
            assert(groups[a].no_duplicates());
        }
        assert forall|t: int, v: int|
            0 <= t < out.len() && 0 <= v < out.len() && t != v implies disjoint(
            #[trigger] out[t],
            #[trigger] out[v],
        ) by {
            if t < before.len() && v < before.len() {
                assert(out[t] == before[t] && out[v] == before[v]);
            } else {
                let low = if t < v {
                    t
                } else {
                    v
                };
                assert(low < before.len());
                assert(init.contains(before[low]));
                let a = choose|a: int| 0 <= a < init.len() && init[a] == before[low];
                assert(groups[a] == before[low]);
                assert(disjoint(groups[a], groups[groups.len() - 1]));
                assert(disjoint(groups[groups.len() - 1], groups[a]));
            }
        }
    }
}

/// What a pass makes of a list of groups in which every file occurs once
/// is again such a list: no file is reported twice.
pub proof fn lemma_refined_apart(groups: Seq<Seq<MetaView>>, ids: Seq<Seq<Id>>)
    requires
        same_shape(groups, ids),
        apart(groups),
    ensures
        apart(refined(groups, ids)),
    decreases groups.len(),
{
    if groups.len() > 0 {
        let init = groups.drop_last();
        let last = groups.last();
        assert(same_shape(init, ids.drop_last())) by {
            assert forall|g: int| 0 <= g < init.len() implies (#[trigger] init[g]).len()
                == ids.drop_last()[g].len() by {
                assert(init[g] == groups[g]);
            }
        }
        assert(apart(init)) by {
            assert forall|t: int| 0 <= t < init.len() implies (#[trigger] init[t]).no_duplicates() by {
                assert(init[t] == groups[t]);
            }
            assert forall|t: int, v: int|
                0 <= t < init.len() && 0 <= v < init.len() && t != v implies disjoint(
                #[trigger] init[t],
                #[trigger] init[v],
            ) by {
                assert(init[t] == groups[t] && init[v] == groups[v]);
            }
        }
        lemma_refined_apart(init, ids.drop_last());
        let first = refined(init, ids.drop_last());
        assert(groups[groups.len() - 1].no_duplicates());
        assert(groups[groups.len() - 1].len() == ids[groups.len() - 1].len());
        lemma_classes_apart(last, ids.last());
        let all = classes(last, ids.last());
        lemma_filter_apart(all, plural());
        let second = refined_group(last, ids.last());
        let out = refined(groups, ids);
        assert forall|v: int| 0 <= v < second.len() implies within(#[trigger] second[v], last) by {
            assert(all.contains(second[v]));
            let a = choose|a: int| 0 <= a < all.len() && all[a] == second[v];
            assert(within(all[a], last));
        }
        assert forall|t: int| 0 <= t < out.len() implies (#[trigger] out[t]).no_duplicates() by {
            if t < first.len() {
                assert(out[t] == first[t]);
            } else {
                assert(out[t] == second[t - first.len()]);
            }
        }
        assert forall|t: int, v: int|
            0 <= t < out.len() && 0 <= v < out.len() && t != v implies disjoint(
            #[trigger] out[t],
            #[trigger] out[v],
        ) by {
            if t < first.len() && v < first.len() {
                assert(out[t] == first[t] && out[v] == first[v]);
            } else if t >= first.len() && v >= first.len() {
                assert(out[t] == second[t - first.len()] && out[v] == second[v - first.len()]);
            } else {
                let low = if t < v {
                    t
                } else {
                    v
                };
                let high = if t < v {
                    v
                } else {
                    t
                };
                assert(out[low] == first[low]);
                assert(out[high] == second[high - first.len()]);
                lemma_refined_within(init, ids.drop_last(), low);
                let g = choose|g: int| 0 <= g < init.len() && within(first[low], #[trigger] init[g]);
                assert(init[g] == groups[g]);
                assert(disjoint(groups[g], groups[groups.len() - 1]));
                assert(within(second[high - first.len()], last));
                assert forall|i: int, j: int|
                    0 <= i < out[low].len() && 0 <= j < out[high].len() implies #[trigger] out[low][i]
                    != #[trigger] out[high][j] by {
                    assert(groups[g].contains(out[low][i]));
                    assert(last.contains(out[high][j]));
                    let a = choose|a: int| 0 <= a < groups[g].len() && groups[g][a] == out[low][i];
                    let b = choose|b: int| 0 <= b < last.len() && last[b] == out[high][j];
                    assert(groups[g][a] != groups[groups.len() - 1][b]);
                }
            }
        }
    }
}

/// A run of passes keeps every file in one place at most.
pub proof fn lemma_refined_through_apart(
    passes: Seq<spec_fn(MetaView) -> Id>,
    groups: Seq<Seq<MetaView>>,
)
    requires
        apart(groups),
    ensures
        apart(refined_through(passes, groups)),
    decreases passes.len(),
{
    if passes.len() > 0 {
        lemma_refined_through_apart(passes.drop_last(), groups);
        let before = refined_through(passes.drop_last(), groups);
        lemma_refined_apart(before, marks(passes.last(), before));
    }
}

/// In exactly one group, with its twin: where every file occurs once, a
/// file that shares its mark under every pass of a run with another file of
/// its group is, after the run, a member of one group and of no other, and
/// the other file is a member of that group too.
pub proof fn lemma_twins_in_one_group(
    passes: Seq<spec_fn(MetaView) -> Id>,
    groups: Seq<Seq<MetaView>>,
    g: int,
    x: MetaView,
    y: MetaView,
)
    requires
        apart(groups),
        0 <= g < groups.len(),
        holds_both(groups[g], x, y),
        x != y,
        forall|k: int|
            0 <= k < passes.len() ==> (#[trigger] passes[k])(x) is Some && passes[k](x) == passes[k](
                y,
            ),
    ensures
        exists|t: int|
            0 <= t < refined_through(passes, groups).len() && holds_both(
                #[trigger] refined_through(passes, groups)[t],
                x,
                y,
            ) && forall|v: int|
                0 <= v < refined_through(passes, groups).len() && (#[trigger] refined_through(
                    passes,
                    groups,
                )[v]).contains(x) ==> v == t,
{
    let out = refined_through(passes, groups);
    lemma_twins_stay_together(passes, groups, g, x, y);
    lemma_refined_through_apart(passes, groups);
    let t = choose|t: int| 0 <= t < out.len() && holds_both(#[trigger] out[t], x, y);
    assert forall|v: int| 0 <= v < out.len() && (#[trigger] out[v]).contains(x) implies v == t by {
        if v != t {
            let i = choose|i: int| 0 <= i < out[t].len() && out[t][i] == x;
            let j = choose|j: int| 0 <= j < out[v].len() && out[v][j] == x;
            assert(disjoint(out[t], out[v]));
            assert(out[t][i] != out[v][j]);
        }
    }
}

/// Monotonicity of a run: whatever a run of passes puts out was put in.
/// Every group after the run lies within one of the groups given.
pub proof fn lemma_refined_through_within(
    passes: Seq<spec_fn(MetaView) -> Id>,
    groups: Seq<Seq<MetaView>>,
    t: int,
)
    requires
        0 <= t < refined_through(passes, groups).len(),
    ensures
        exists|g: int|
            0 <= g < groups.len() && within(
                refined_through(passes, groups)[t],
                #[trigger] groups[g],
            ),
    decreases passes.len(),
{
    if passes.len() == 0 {
        assert(within(groups[t], groups[t])) by {
            assert forall|a: int| 0 <= a < groups[t].len() implies groups[t].contains(
                #[trigger] groups[t][a],
            ) by {}
        }
    } else {
        let before = refined_through(passes.drop_last(), groups);
        let ids = marks(passes.last(), before);
        let out = refined(before, ids);
        lemma_refined_within(before, ids, t);
        let h = choose|h: int| 0 <= h < before.len() && within(out[t], #[trigger] before[h]);
        lemma_refined_through_within(passes.drop_last(), groups, h);
        let g = choose|g: int| 0 <= g < groups.len() && within(before[h], #[trigger] groups[g]);
        assert forall|a: int| 0 <= a < out[t].len() implies groups[g].contains(
            #[trigger] out[t][a],
        ) by {
            assert(before[h].contains(out[t][a]));
            let b = choose|b: int| 0 <= b < before[h].len() && before[h][b] == out[t][a];
            assert(groups[g].contains(before[h][b]));
        }
        assert(within(refined_through(passes, groups)[t], groups[g]));
    }
}

/// Whether `file` is a member of none of the groups.
pub open spec fn in_no_group(groups: Seq<Seq<MetaView>>, file: MetaView) -> bool {
    forall|t: int| 0 <= t < groups.len() ==> !(#[trigger] groups[t]).contains(file)
}

/// A file that was not put in is not put out: a file that is a member of
/// none of the groups given is a member of no group after a run.
pub proof fn lemma_outsider_in_no_group(
    passes: Seq<spec_fn(MetaView) -> Id>,
    groups: Seq<Seq<MetaView>>,
    file: MetaView,
)
    requires
        in_no_group(groups, file),
    ensures
        in_no_group(refined_through(passes, groups), file),
{
    let out = refined_through(passes, groups);
    assert forall|t: int| 0 <= t < out.len() implies !(#[trigger] out[t]).contains(file) by {
        if out[t].contains(file) {
            lemma_refined_through_within(passes, groups, t);
            let g = choose|g: int| 0 <= g < groups.len() && within(out[t], #[trigger] groups[g]);
            let a = choose|a: int| 0 <= a < out[t].len() && out[t][a] == file;
            assert(groups[g].contains(out[t][a]));
        }
    }
}

/// A file that a pass tells from every other is reported nowhere: where
/// every file occurs once, a file whose mark under some pass of a run no
/// other member of any group shares is a member of no group after the run.
pub proof fn lemma_told_apart_in_no_group(
    passes: Seq<spec_fn(MetaView) -> Id>,
    groups: Seq<Seq<MetaView>>,
    k: int,
    file: MetaView,
)
    requires
        apart(groups),
        0 <= k < passes.len(),
        forall|g: int, i: int|
            0 <= g < groups.len() && 0 <= i < groups[g].len() && #[trigger] groups[g][i] != file
                ==> passes[k](groups[g][i]) != passes[k](file),
    ensures
        in_no_group(refined_through(passes, groups), file),
{
    let out = refined_through(passes, groups);
    lemma_refined_through_apart(passes, groups);
    assert forall|t: int| 0 <= t < out.len() implies !(#[trigger] out[t]).contains(file) by {
        if out[t].contains(file) {
            lemma_refined_through_uniform(passes, groups, k, t);
            lemma_refined_through_within(passes, groups, t);
            let g = choose|g: int| 0 <= g < groups.len() && within(out[t], #[trigger] groups[g]);
            let a = choose|a: int| 0 <= a < out[t].len() && out[t][a] == file;
            let b = if a == 0 {
                1int
            } else {
                0int
            };
            assert(out[t].no_duplicates());
            assert(out[t][b] != out[t][a]);
            assert(passes[k](out[t][a]) == passes[k](out[t][b]));
            assert(groups[g].contains(out[t][b]));
            let i = choose|i: int| 0 <= i < groups[g].len() && groups[g][i] == out[t][b];
            assert(passes[k](groups[g][i]) != passes[k](file));
        }
    }
}

/// Who survives a pass: the class of a member's mark is among the new groups
/// exactly when some other member of the group carries the same mark. Marks
/// are keys once each, so a member is in one class at most; a member without
/// a mark is in none.
pub proof fn lemma_class_kept_iff_shared(
    members: Seq<MetaView>,
    ids: Seq<Id>,
    place: int,
    key: Seq<u8>,
)
    requires
        members.len() == ids.len(),
        0 <= place < ids.len(),
        ids[place] == Some(key),
    ensures
        refined_group(members, ids).contains(class_of(members, ids, key)) <==> exists|other: int|
            0 <= other < ids.len() && other != place && #[trigger] ids[other] == Some(key),
{
    let class = class_of(members, ids, key);
    let listed = positions(ids, key);
    let all = classes(members, ids);
    lemma_positions_sound(ids, key);
    lemma_keys_sound(ids);
    if exists|other: int| 0 <= other < ids.len() && other != place && #[trigger] ids[other] == Some(key) {
        let other = choose|other: int|
            0 <= other < ids.len() && other != place && #[trigger] ids[other] == Some(key);
        lemma_positions_complete(ids, key, place);
        lemma_positions_complete(ids, key, other);
        assert(class.len() >= 2);
        assert(ids[place] == Some(key));
        assert(ids.contains(Some(key)));
        assert(keys_of(ids).contains(key));
        let t = choose|t: int| 0 <= t < keys_of(ids).len() && keys_of(ids)[t] == key;
        assert(all[t] == class);
        all.lemma_filter_contains(plural(), t);
    }
    if refined_group(members, ids).contains(class) {
        let j = choose|j: int|
            0 <= j < refined_group(members, ids).len() && refined_group(members, ids)[j] == class;
        all.lemma_filter_pred(plural(), j);
        assert(class.len() >= 2);
        let first = listed[0];
        let second = listed[1];
        assert(first < second);
        if first != place {
            assert(ids[first] == Some(key));
        } else {
            assert(ids[second] == Some(key));
        }
    }
}

} // verus!
