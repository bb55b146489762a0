//! A sequence of records with unique node ids, seen as a map from id to record.
use vstd::prelude::*;

use crate::clock::LamportTime;

verus! {

/// Status of a member as this node sees it.
#[derive(Debug, Copy, Clone, PartialEq, Eq, Structural)]
pub enum MemberStatus {
    Unknown,
    Alive,
    Leaving,
    Left,
    Failed,
}

/// What the membership table holds of one node.
#[derive(Debug, Copy, Clone)]
pub struct MemberState {
    pub id: u64,
    pub status: MemberStatus,
    pub status_ltime: LamportTime,
    /// Monotonic time at which the node was seen failed or left.
    pub leave_time: u64,
}

/// No two records of `s` share an id.
pub open spec fn unique_ids(s: Seq<MemberState>) -> bool {
    forall|i: int, j: int|
        0 <= i < s.len() && 0 <= j < s.len() && i != j ==> #[trigger] s[i].id != #[trigger] s[j].id
}

/// Whether some record of `s` has id `id`.
pub open spec fn has_id(s: Seq<MemberState>, id: u64) -> bool {
    exists|i: int| 0 <= i < s.len() && #[trigger] s[i].id == id
}

/// The map from id to record that `s` stands for.
pub open spec fn seq_table(s: Seq<MemberState>) -> Map<u64, MemberState> {
    Map::new(|id: u64| has_id(s, id), |id: u64| s[choose|i: int| 0 <= i < s.len() && s[i].id == id])
}

pub proof fn lemma_table_at(s: Seq<MemberState>, i: int)
    requires
        unique_ids(s),
        0 <= i < s.len(),
    ensures
        seq_table(s).contains_key(s[i].id),
        seq_table(s)[s[i].id] == s[i],
{
    let id = s[i].id;
    assert(has_id(s, id));
    let j = choose|j: int| 0 <= j < s.len() && s[j].id == id;
    assert(j == i);
}

pub proof fn lemma_table_update(s: Seq<MemberState>, i: int, r: MemberState)
    requires
        unique_ids(s),
        0 <= i < s.len(),
        r.id == s[i].id,
    ensures
        unique_ids(s.update(i, r)),
        seq_table(s.update(i, r)) == seq_table(s).insert(r.id, r),
{
    let t = s.update(i, r);
    assert(unique_ids(t)) by {
        assert forall|a: int, b: int|
            0 <= a < t.len() && 0 <= b < t.len() && a != b implies #[trigger] t[a].id
            != #[trigger] t[b].id by {
            assert(t[a].id == s[a].id);
            assert(t[b].id == s[b].id);
        }
    }
    let m1 = seq_table(t);
    let m2 = seq_table(s).insert(r.id, r);
    assert forall|id: u64| m1.contains_key(id) == m2.contains_key(id) by {
        if has_id(s, id) {
            let j = choose|j: int| 0 <= j < s.len() && s[j].id == id;
            assert(t[j].id == id);
        }
        if has_id(t, id) {
            let j = choose|j: int| 0 <= j < t.len() && t[j].id == id;
            assert(s[j].id == id);
        }
    }
    assert forall|id: u64| #[trigger] m1.contains_key(id) implies m1[id] == m2[id] by {
        let j = choose|j: int| 0 <= j < t.len() && t[j].id == id;
        lemma_table_at(t, j);
        if j != i {
            lemma_table_at(s, j);
        }
    }
    assert(m1 =~= m2);
}

pub proof fn lemma_table_push(s: Seq<MemberState>, r: MemberState)
    requires
        unique_ids(s),
        !has_id(s, r.id),
    ensures
        unique_ids(s.push(r)),
        seq_table(s.push(r)) == seq_table(s).insert(r.id, r),
{
    let t = s.push(r);
    assert(unique_ids(t)) by {
        assert forall|a: int, b: int|
            0 <= a < t.len() && 0 <= b < t.len() && a != b implies #[trigger] t[a].id
            != #[trigger] t[b].id by {
            if a == s.len() {
                assert(s[b].id == t[b].id);
            } else if b == s.len() {
                assert(s[a].id == t[a].id);
            } else {
                assert(s[a].id == t[a].id && s[b].id == t[b].id);
            }
        }
    }
    let m1 = seq_table(t);
    let m2 = seq_table(s).insert(r.id, r);
    assert forall|id: u64| m1.contains_key(id) == m2.contains_key(id) by {
        if has_id(s, id) {
            let j = choose|j: int| 0 <= j < s.len() && s[j].id == id;
            assert(t[j].id == id);
        }
        if has_id(t, id) {
            let j = choose|j: int| 0 <= j < t.len() && t[j].id == id;
            if j < s.len() {
                assert(s[j].id == id);
            }
        }
        assert(t[s.len() as int] == r);
    }
    assert forall|id: u64| #[trigger] m1.contains_key(id) implies m1[id] == m2[id] by {
        let j = choose|j: int| 0 <= j < t.len() && t[j].id == id;
        lemma_table_at(t, j);
        if j < s.len() {
            lemma_table_at(s, j);
        }
    }
    assert(m1 =~= m2);
}

pub proof fn lemma_table_remove(s: Seq<MemberState>, i: int)
    requires
        unique_ids(s),
        0 <= i < s.len(),
    ensures
        unique_ids(s.remove(i)),
        seq_table(s.remove(i)) == seq_table(s).remove(s[i].id),
{
    let t = s.remove(i);
    assert(unique_ids(t)) by {
        assert forall|a: int, b: int|
            0 <= a < t.len() && 0 <= b < t.len() && a != b implies #[trigger] t[a].id
            != #[trigger] t[b].id by {
            let a2 = if a < i { a } else { a + 1 };
            let b2 = if b < i { b } else { b + 1 };
            assert(t[a] == s[a2] && t[b] == s[b2]);
        }
    }
    let m1 = seq_table(t);
    let m2 = seq_table(s).remove(s[i].id);
    assert forall|id: u64| m1.contains_key(id) == m2.contains_key(id) by {
        if has_id(s, id) && id != s[i].id {
            let j = choose|j: int| 0 <= j < s.len() && s[j].id == id;
            if j < i {
                assert(t[j].id == id);
            } else {
                assert(t[j - 1].id == id);
            }
        }
        if has_id(t, id) {
            let j = choose|j: int| 0 <= j < t.len() && t[j].id == id;
            let j2 = if j < i { j } else { j + 1 };
            assert(s[j2].id == id);
        }
    }
    assert forall|id: u64| #[trigger] m1.contains_key(id) implies m1[id] == m2[id] by {
        let j = choose|j: int| 0 <= j < t.len() && t[j].id == id;
        lemma_table_at(t, j);
        let j2 = if j < i { j } else { j + 1 };
        assert(t[j] == s[j2]);
        lemma_table_at(s, j2);
    }
    assert(m1 =~= m2);
}

pub proof fn lemma_table_empty()
    ensures
        seq_table(Seq::<MemberState>::empty()) == Map::<u64, MemberState>::empty(),
        unique_ids(Seq::<MemberState>::empty()),
{
    assert(seq_table(Seq::<MemberState>::empty()) =~= Map::<u64, MemberState>::empty());
}

/// Index of the record with id `id`, if any.
pub fn find_member(v: &Vec<MemberState>, id: u64) -> (r: Option<usize>)
    requires
        unique_ids(v@),
    ensures
        r is None <==> !seq_table(v@).contains_key(id),
        r matches Some(i) ==> i < v.len() && v@[i as int].id == id && seq_table(v@)[id]
            == v@[i as int],
{
    let mut i: usize = 0;
    while i < v.len()
        invariant
            i <= v.len(),
            unique_ids(v@),
            forall|j: int| 0 <= j < i ==> #[trigger] v@[j].id != id,
        decreases v.len() - i,
    {
        if v[i].id == id {
            proof {
                lemma_table_at(v@, i as int);
            }
            return Some(i);
        }
        i = i + 1;
    }
    None
}

} // verus!
