//! Grouping password records by the value of one of their fields.
use vstd::prelude::*;
use vstd::seq_lib::group_seq_properties;
use crate::filter::{get_field, lookup, opt_view, views};
use crate::record::{Password, PasswordView};

verus! {

/// The field that records are grouped by.
#[derive(Debug, Clone)]
pub enum SortBy {
    Domain,
    Username,
    /// An additional field, by name.
    Other(String),
}

/// The value of the chosen field of a record; `None` where it has no such field.
pub open spec fn sort_key(p: PasswordView, sort_by: SortBy) -> Option<Seq<char>> {
    match sort_by {
        SortBy::Domain => Some(p.domain),
        SortBy::Username => Some(p.username),
        SortBy::Other(name) => lookup(p.fields, name@),
    }
}

/// Records grouped by the value of `sort_by`: one entry per distinct value,
/// holding the records with that value in their original order.
pub struct SortedPasswords {
    pub sort_by: SortBy,
    pub entries: Vec<(Option<String>, Vec<Password>)>,
}

/// The records of `ps` whose key is `key`.
pub open spec fn with_key(ps: Seq<PasswordView>, sort_by: SortBy, key: Option<Seq<char>>) -> Seq<PasswordView> {
    ps.filter(|p: PasswordView| sort_key(p, sort_by) == key)
}

/// `entries` group the records `ps` by `sort_by`: the keys are distinct, each
/// entry holds exactly the records with its key in their order, no entry is
/// empty, and every record's key has an entry.
pub open spec fn groups(entries: Seq<(Option<String>, Vec<Password>)>, ps: Seq<PasswordView>, sort_by: SortBy) -> bool {
    &&& forall|i: int, j: int| 0 <= i < j < entries.len() ==> opt_view(#[trigger] entries[i].0) != opt_view(#[trigger] entries[j].0)
    &&& forall|b: int| 0 <= b < entries.len() ==> views((#[trigger] entries[b]).1@) == with_key(ps, sort_by, opt_view(entries[b].0))
    &&& forall|b: int| 0 <= b < entries.len() ==> (#[trigger] entries[b]).1@.len() > 0
    &&& forall|k: int| 0 <= k < ps.len() ==> exists|b: int| 0 <= b < entries.len() && opt_view((#[trigger] entries[b]).0) == sort_key(#[trigger] ps[k], sort_by)
}

/// The value of the chosen field, copied.
pub fn get_sort_field_value(password: &Password, sort_by: &SortBy) -> (r: Option<String>)
    ensures
        opt_view(r) == sort_key(password@, *sort_by),
{
    match sort_by {
        SortBy::Domain => Some(password.domain.clone()),
        SortBy::Username => Some(password.username.clone()),
        SortBy::Other(name) => match get_field(&password.additional_fields, name.as_str()) {
            Some(v) => Some(v.clone()),
            None => None,
        },
    }
}

fn same_key(a: &Option<String>, b: &Option<String>) -> (r: bool)
    ensures
        r == (opt_view(*a) == opt_view(*b)),
{
    match a {
        Some(x) => match b {
            Some(y) => *x == *y,
            None => false,
        },
        None => b.is_none(),
    }
}

/// Groups the records by the value of `sort_by`.
pub fn sort(passwords: Vec<Password>, sort_by: SortBy) -> (r: SortedPasswords)
    ensures
        r.sort_by == sort_by,
        groups(r.entries@, views(passwords@), sort_by),
{
    let ghost orig = passwords@;
    let mut rest = passwords;
    let mut entries: Vec<(Option<String>, Vec<Password>)> = Vec::new();
    let ghost mut done: Seq<Password> = Seq::empty();
    proof {
        assert(done + rest@ =~= orig);
    }
    while rest.len() > 0
        invariant
            done + rest@ == orig,
            groups(entries@, views(done), sort_by),
        decreases rest@.len(),
    {
        let p = rest.remove(0);
        let key = get_sort_field_value(&p, &sort_by);
        let ghost before = done;
        let ghost old_entries = entries@;
        let ghost next = before.push(p);
        proof {
            reveal(Seq::filter);
            assert(views(next).drop_last() =~= views(before));
            assert(views(next).last() == p@);
            done = next;
            assert(done + rest@ =~= orig);
        }
        let mut b: usize = 0;
        while b < entries.len()
            invariant
                b <= entries@.len(),
                entries@ == old_entries,
                forall|c: int| 0 <= c < b ==> opt_view(#[trigger] entries@[c].0) != opt_view(key),
            ensures
                b <= entries@.len(),
                entries@ == old_entries,
                forall|c: int| 0 <= c < b ==> opt_view(#[trigger] entries@[c].0) != opt_view(key),
                b < entries@.len() ==> opt_view(entries@[b as int].0) == opt_view(key),
            decreases entries@.len() - b,
        {
            if same_key(&entries[b].0, &key) {
                break;
            }
            b = b + 1;
        }
        if b < entries.len() {
            let (k, mut bucket) = entries.remove(b);
            bucket.push(p);
            entries.insert(b, (k, bucket));
            proof {
                reveal(Seq::filter);
                let ne = entries@;
                assert(opt_view(ne[b as int].0) == opt_view(key));
                assert forall|c: int| 0 <= c < ne.len() implies
                    views((#[trigger] ne[c]).1@) == with_key(views(next), sort_by, opt_view(ne[c].0)) by {
                    if c == b {
                        assert(views(ne[c].1@) =~= views(old_entries[c].1@).push(p@));
                    } else {
                        assert(ne[c] == old_entries[c]);
                        if c < b {
                            assert(opt_view(old_entries[c].0) != opt_view(old_entries[b as int].0));
                        } else {
                            assert(opt_view(old_entries[b as int].0) != opt_view(old_entries[c].0));
                        }
                    }
                }
                assert forall|c: int| 0 <= c < ne.len() implies (#[trigger] ne[c]).1@.len() > 0 by {
                    if c != b {
                        assert(ne[c] == old_entries[c]);
                    }
                }
                assert forall|i: int, j: int| 0 <= i < j < ne.len() implies
                    opt_view(#[trigger] ne[i].0) != opt_view(#[trigger] ne[j].0) by {
                    assert(opt_view(ne[i].0) == opt_view(old_entries[i].0));
                    assert(opt_view(ne[j].0) == opt_view(old_entries[j].0));
                }
                assert forall|k: int| 0 <= k < views(next).len() implies exists|c: int|
                    0 <= c < ne.len() && opt_view((#[trigger] ne[c]).0) == sort_key(#[trigger] views(next)[k], sort_by) by {
                    if k == views(next).len() - 1 {
                        assert(opt_view(ne[b as int].0) == sort_key(views(next)[k], sort_by));
                    } else {
                        assert(views(next)[k] == views(before)[k]);
                        let c = choose|c: int| 0 <= c < old_entries.len() && opt_view((#[trigger] old_entries[c]).0) == sort_key(views(before)[k], sort_by);
                        assert(opt_view(ne[c].0) == opt_view(old_entries[c].0));
                    }
                }
            }
        } else {
            let mut bucket: Vec<Password> = Vec::new();
            bucket.push(p);
            entries.push((key, bucket));
            proof {
                reveal(Seq::filter);
                let ne = entries@;
                let n = old_entries.len() as int;
                assert(with_key(views(before), sort_by, opt_view(key)) =~= Seq::<PasswordView>::empty()) by {
                    assert forall|k: int| 0 <= k < views(before).len() implies
                        sort_key(#[trigger] views(before)[k], sort_by) != opt_view(key) by {
                        let c = choose|c: int| 0 <= c < old_entries.len() && opt_view((#[trigger] old_entries[c]).0) == sort_key(views(before)[k], sort_by);
                    }
                    views(before).lemma_all_neg_filter_empty(|q: PasswordView| sort_key(q, sort_by) == opt_view(key));
                }
                assert forall|c: int| 0 <= c < ne.len() implies
                    views((#[trigger] ne[c]).1@) == with_key(views(next), sort_by, opt_view(ne[c].0)) by {
                    if c == n {
                        assert(views(ne[c].1@) =~= seq![p@]);
                        assert(with_key(views(next), sort_by, opt_view(ne[c].0)) =~= seq![p@]);
                    } else {
                        assert(ne[c] == old_entries[c]);
                    }
                }
                assert forall|c: int| 0 <= c < ne.len() implies (#[trigger] ne[c]).1@.len() > 0 by {
                    if c != n {
                        assert(ne[c] == old_entries[c]);
                    }
                }
                assert forall|k: int| 0 <= k < views(next).len() implies exists|c: int|
                    0 <= c < ne.len() && opt_view((#[trigger] ne[c]).0) == sort_key(#[trigger] views(next)[k], sort_by) by {
                    if k == views(next).len() - 1 {
                        assert(opt_view(ne[n].0) == sort_key(views(next)[k], sort_by));
                    } else {
                        assert(views(next)[k] == views(before)[k]);
                        let c = choose|c: int| 0 <= c < old_entries.len() && opt_view((#[trigger] old_entries[c]).0) == sort_key(views(before)[k], sort_by);
                        assert(ne[c] == old_entries[c]);
                    }
                }
            }
        }
    }
    assert(done =~= orig);
    SortedPasswords { sort_by, entries }
}

/// Filtering keeps every copy of a value that passes and none of one that fails.
proof fn lemma_filter_count(s: Seq<PasswordView>, pred: spec_fn(PasswordView) -> bool, x: PasswordView)
    ensures
        s.filter(pred).to_multiset().count(x) == if pred(x) { s.to_multiset().count(x) } else { 0 },
    decreases s.len(),
{
    broadcast use group_seq_properties;
    reveal(Seq::filter);
    if s.len() == 0 {
        assert(s.filter(pred) =~= Seq::<PasswordView>::empty());
    } else {
        let init = s.drop_last();
        lemma_filter_count(init, pred, x);
        assert(init.push(s.last()) =~= s);
        init.to_multiset_ensures();
        init.filter(pred).to_multiset_ensures();
    }
}

/// Grouping partitions the records: a record is in the entry of its own key
/// as many times as in the input and in no other entry, and every record of the
/// input has an entry. So the entries together hold exactly the input multiset,
/// and every record in the entry of `Some(v)` has `v` as its field value, while
/// those in the entry of `None` lack the field; grouping by domain or username
/// gives no `None` entry.
pub proof fn lemma_groups_partition(entries: Seq<(Option<String>, Vec<Password>)>, ps: Seq<PasswordView>, sort_by: SortBy)
    requires
        groups(entries, ps, sort_by),
    ensures
        forall|b: int, x: PasswordView| 0 <= b < entries.len() ==>
            #[trigger] views(entries[b].1@).to_multiset().count(x) == if sort_key(x, sort_by) == opt_view(entries[b].0) {
                ps.to_multiset().count(x)
            } else {
                0
            },
        forall|x: PasswordView| ps.to_multiset().count(x) > 0 ==> exists|b: int|
            0 <= b < entries.len() && opt_view((#[trigger] entries[b]).0) == sort_key(x, sort_by),
        forall|b: int, k: int| 0 <= b < entries.len() && 0 <= k < entries[b].1@.len() ==>
            sort_key(#[trigger] entries[b].1@[k]@, sort_by) == opt_view(entries[b].0),
        !(sort_by is Other) ==> forall|b: int| 0 <= b < entries.len() ==> (#[trigger] entries[b]).0 is Some,
{
    broadcast use group_seq_properties;
    assert forall|b: int, x: PasswordView| 0 <= b < entries.len() implies
        #[trigger] views(entries[b].1@).to_multiset().count(x) == if sort_key(x, sort_by) == opt_view(entries[b].0) {
            ps.to_multiset().count(x)
        } else {
            0
        } by {
        lemma_filter_count(ps, |p: PasswordView| sort_key(p, sort_by) == opt_view(entries[b].0), x);
    }
    assert forall|x: PasswordView| ps.to_multiset().count(x) > 0 implies exists|b: int|
        0 <= b < entries.len() && opt_view((#[trigger] entries[b]).0) == sort_key(x, sort_by) by {
        ps.to_multiset_ensures();
        let k = choose|k: int| 0 <= k < ps.len() && ps[k] == x;
        assert(sort_key(ps[k], sort_by) == sort_key(x, sort_by));
    }
    assert forall|b: int, k: int| 0 <= b < entries.len() && 0 <= k < entries[b].1@.len() implies
        sort_key(#[trigger] entries[b].1@[k]@, sort_by) == opt_view(entries[b].0) by {
        let pred = |p: PasswordView| sort_key(p, sort_by) == opt_view(entries[b].0);
        assert(views(entries[b].1@)[k] == entries[b].1@[k]@);
        ps.lemma_filter_pred(pred, k);
    }
    if !(sort_by is Other) {
        assert forall|b: int| 0 <= b < entries.len() implies (#[trigger] entries[b]).0 is Some by {
            assert(entries[b].1@.len() > 0);
            assert(sort_key(entries[b].1@[0]@, sort_by) == opt_view(entries[b].0));
        }
    }
}

} // verus!
