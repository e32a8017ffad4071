//! Substring filters over password records.
use vstd::prelude::*;
use crate::record::{Password, PasswordView};

verus! {

/// `pattern` occurs in `s` as a contiguous run of characters.
pub open spec fn is_substring(pattern: Seq<char>, s: Seq<char>) -> bool {
    exists|i: int| 0 <= i && i + pattern.len() <= s.len() && #[trigger] s.subrange(i, i + pattern.len()) == pattern
}

/// Relies on std's `str::contains` with a `&str` pattern: true exactly when the
/// pattern occurs in the string.
#[verifier::external_body]
fn str_contains(s: &str, pattern: &str) -> (r: bool)
    ensures
        r == is_substring(pattern@, s@),
{
    s.contains(pattern)
}

/// The value of the first field named `name`.
pub open spec fn lookup(fields: Seq<(Seq<char>, Seq<char>)>, name: Seq<char>) -> Option<Seq<char>>
    decreases fields.len(),
{
    if fields.len() == 0 {
        None
    } else if fields[0].0 == name {
        Some(fields[0].1)
    } else {
        lookup(fields.drop_first(), name)
    }
}

/// The value of the first field named `name`, if any.
pub fn get_field<'a>(fields: &'a Vec<(String, String)>, name: &str) -> (r: Option<&'a String>)
    ensures
        r is None <==> lookup(crate::record::fields_view(fields@), name@) is None,
        r is Some ==> lookup(crate::record::fields_view(fields@), name@) == Some(r->Some_0@),
{
    let ghost fv = crate::record::fields_view(fields@);
    let mut i: usize = 0;
    assert(fv.skip(0) =~= fv);
    while i < fields.len()
        invariant
            i <= fields@.len(),
            fv == crate::record::fields_view(fields@),
            lookup(fv, name@) == lookup(fv.skip(i as int), name@),
        decreases fields@.len() - i,
    {
        assert(fv.skip(i as int)[0] == fv[i as int]);
        if crate::bytes::bytes_eq(fields[i].0.as_str().as_bytes(), name.as_bytes()) {
            proof {
                vstd::utf8::encode_utf8_decode_utf8(fields@[i as int].0@);
                vstd::utf8::encode_utf8_decode_utf8(name@);
            }
            return Some(&fields[i].1);
        }
        assert(fv.skip(i as int).drop_first() =~= fv.skip(i + 1));
        i = i + 1;
    }
    None
}

/// Optional substring constraints on a record's strings and named fields.
pub struct PasswordFilter {
    password_filter: Option<String>,
    domain_filter: Option<String>,
    username_filter: Option<String>,
    additional_filters: Vec<(String, String)>,
}

/// The constraints of a filter.
pub struct FilterView {
    pub password: Option<Seq<char>>,
    pub domain: Option<Seq<char>>,
    pub username: Option<Seq<char>>,
    pub fields: Seq<(Seq<char>, Seq<char>)>,
}

pub open spec fn opt_view(o: Option<String>) -> Option<Seq<char>> {
    match o {
        Some(s) => Some(s@),
        None => None,
    }
}

/// `value` meets an optional substring constraint.
pub open spec fn meets(constraint: Option<Seq<char>>, value: Seq<char>) -> bool {
    match constraint {
        Some(c) => is_substring(c, value),
        None => true,
    }
}

/// A record passes a filter when each constraint that is set holds of it, and
/// each named field constraint finds a field of that name whose value holds the
/// substring.
pub open spec fn passes(f: FilterView, p: PasswordView) -> bool {
    &&& meets(f.password, p.password)
    &&& meets(f.domain, p.domain)
    &&& meets(f.username, p.username)
    &&& forall|i: int| 0 <= i < f.fields.len() ==> field_passes(#[trigger] f.fields[i], p.fields)
}

pub open spec fn field_passes(constraint: (Seq<char>, Seq<char>), fields: Seq<(Seq<char>, Seq<char>)>) -> bool {
    match lookup(fields, constraint.0) {
        Some(v) => is_substring(constraint.1, v),
        None => false,
    }
}

/// The views of a list of records.
pub open spec fn views(ps: Seq<Password>) -> Seq<PasswordView> {
    ps.map_values(|p: Password| p@)
}

impl View for PasswordFilter {
    type V = FilterView;

    closed spec fn view(&self) -> FilterView {
        FilterView {
            password: opt_view(self.password_filter),
            domain: opt_view(self.domain_filter),
            username: opt_view(self.username_filter),
            fields: crate::record::fields_view(self.additional_filters@),
        }
    }
}

impl FilterView {
    pub open spec fn redundant(&self) -> bool {
        self.password is None && self.domain is None && self.username is None && self.fields.len() == 0
    }
}

fn meets_exec(constraint: &Option<String>, value: &String) -> (r: bool)
    ensures
        r == meets(opt_view(*constraint), value@),
{
    match constraint {
        Some(c) => str_contains(value.as_str(), c.as_str()),
        None => true,
    }
}

impl PasswordFilter {
    pub fn new(
        password_filter: Option<String>,
        domain_filter: Option<String>,
        username_filter: Option<String>,
        additional_filters: Vec<(String, String)>,
    ) -> (r: PasswordFilter)
        ensures
            r@.password == opt_view(password_filter),
            r@.domain == opt_view(domain_filter),
            r@.username == opt_view(username_filter),
            r@.fields == crate::record::fields_view(additional_filters@),
    {
        PasswordFilter { password_filter, domain_filter, username_filter, additional_filters }
    }

    /// True when the record passes the filter.
    pub fn test(&self, password: &Password) -> (r: bool)
        ensures
            r == passes(self@, password@),
    {
        if !meets_exec(&self.password_filter, &password.password) {
            return false;
        }
        if !meets_exec(&self.domain_filter, &password.domain) {
            return false;
        }
        if !meets_exec(&self.username_filter, &password.username) {
            return false;
        }
        let ghost fv = self@.fields;
        let mut i: usize = 0;
        while i < self.additional_filters.len()
            invariant
                i <= self.additional_filters@.len(),
                fv == self@.fields,
                fv == crate::record::fields_view(self.additional_filters@),
                forall|j: int| 0 <= j < i ==> field_passes(#[trigger] fv[j], password@.fields),
            decreases self.additional_filters@.len() - i,
        {
            let (name, pattern) = &self.additional_filters[i];
            match get_field(&password.additional_fields, name.as_str()) {
                Some(value) => {
                    if !str_contains(value.as_str(), pattern.as_str()) {
                        assert(!field_passes(fv[i as int], password@.fields));
                        return false;
                    }
                },
                None => {
                    assert(!field_passes(fv[i as int], password@.fields));
                    return false;
                },
            }
            i = i + 1;
        }
        true
    }

    /// True when no constraint is set.
    pub fn is_redundant(&self) -> (r: bool)
        ensures
            r == self@.redundant(),
    {
        self.password_filter.is_none() && self.domain_filter.is_none() && self.username_filter.is_none()
            && self.additional_filters.len() == 0
    }
}

/// The records that pass the filter, in their order.
pub fn filter_passwords(passwords: Vec<Password>, filter: &PasswordFilter) -> (r: Vec<Password>)
    ensures
        views(r@) == views(passwords@).filter(|p: PasswordView| passes(filter@, p)),
{
    let ghost orig = passwords@;
    let ghost pred = |p: PasswordView| passes(filter@, p);
    let mut rest = passwords;
    let mut r: Vec<Password> = Vec::new();
    let ghost mut done: Seq<Password> = Seq::empty();
    proof {
        reveal(Seq::filter);
        assert(views(done).filter(pred) =~= Seq::<PasswordView>::empty());
        assert(done + rest@ =~= orig);
    }
    while rest.len() > 0
        invariant
            done + rest@ == orig,
            views(r@) == views(done).filter(pred),
            pred == (|p: PasswordView| passes(filter@, p)),
        decreases rest@.len(),
    {
        let p = rest.remove(0);
        let ghost before = done;
        let keep = filter.test(&p);
        proof {
            reveal(Seq::filter);
            let next = before.push(p);
            assert(views(next).drop_last() =~= views(before));
            assert(views(next).last() == p@);
            assert(pred(p@) == keep);
            done = next;
            assert(done + rest@ =~= orig);
        }
        if keep {
            r.push(p);
            assert(views(r@) =~= views(before).filter(pred).push(p@));
        } else {
            assert(views(r@) =~= views(before).filter(pred));
        }
    }
    assert(done =~= orig);
    r
}

/// A filter with no constraint lets every record through: filtering by it gives
/// back the same sequence.
pub proof fn lemma_redundant_filter_keeps_all(f: FilterView, ps: Seq<PasswordView>)
    requires
        f.redundant(),
    ensures
        ps.filter(|p: PasswordView| passes(f, p)) == ps,
    decreases ps.len(),
{
    reveal(Seq::filter);
    if ps.len() > 0 {
        lemma_redundant_filter_keeps_all(f, ps.drop_last());
        assert(passes(f, ps.last()));
        assert(ps.drop_last().push(ps.last()) =~= ps);
    }
}

} // verus!
