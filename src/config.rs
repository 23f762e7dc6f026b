use vstd::prelude::*;

use crate::model::SortField;
use crate::text::chars_of;

verus! {

/// Settings given on the command line.
#[derive(Debug, Clone)]
pub struct Config {
    /// Refresh interval in seconds.
    pub interval: u64,
    /// Initial sort field: name, pid, conn, down, up, rate-in, rate-out.
    pub sort_by: String,
}

/// The sort field that a setting names; rate-in for anything else.
pub open spec fn sort_field_named(s: Seq<char>) -> SortField {
    if s == seq!['n', 'a', 'm', 'e'] {
        SortField::Name
    } else if s == seq!['p', 'i', 'd'] {
        SortField::Pid
    } else if s == seq!['c', 'o', 'n', 'n'] {
        SortField::Connections
    } else if s == seq!['d', 'o', 'w', 'n'] {
        SortField::BytesIn
    } else if s == seq!['u', 'p'] {
        SortField::BytesOut
    } else if s == seq!['r', 'a', 't', 'e', '-', 'o', 'u', 't'] {
        SortField::RateOut
    } else {
        SortField::RateIn
    }
}

/// Whether two character lists are equal.
fn same_chars(a: &Vec<char>, b: &Vec<char>) -> (r: bool)
    ensures
        r == (a@ == b@),
{
    if a.len() != b.len() {
        return false;
    }
    let mut i: usize = 0;
    while i < a.len()
        invariant
            a@.len() == b@.len(),
            i <= a@.len(),
            forall|k: int| 0 <= k < i ==> a@[k] == b@[k],
        decreases a@.len() - i,
    {
        if a[i] != b[i] {
            return false;
        }
        i = i + 1;
    }
    assert(a@ =~= b@);
    true
}

impl Config {
    pub fn parse_sort_field(&self) -> (r: SortField)
        ensures
            r == sort_field_named(self.sort_by@),
    {
        let s = chars_of(self.sort_by.as_str());
        let name: Vec<char> = vec!['n', 'a', 'm', 'e'];
        let pid: Vec<char> = vec!['p', 'i', 'd'];
        let conn: Vec<char> = vec!['c', 'o', 'n', 'n'];
        let down: Vec<char> = vec!['d', 'o', 'w', 'n'];
        let up: Vec<char> = vec!['u', 'p'];
        let rate_out: Vec<char> = vec!['r', 'a', 't', 'e', '-', 'o', 'u', 't'];
        assert(name@ =~= seq!['n', 'a', 'm', 'e']);
        assert(pid@ =~= seq!['p', 'i', 'd']);
        assert(conn@ =~= seq!['c', 'o', 'n', 'n']);
        assert(down@ =~= seq!['d', 'o', 'w', 'n']);
        assert(up@ =~= seq!['u', 'p']);
        assert(rate_out@ =~= seq!['r', 'a', 't', 'e', '-', 'o', 'u', 't']);
        if same_chars(&s, &name) {
            SortField::Name
        } else if same_chars(&s, &pid) {
            SortField::Pid
        } else if same_chars(&s, &conn) {
            SortField::Connections
        } else if same_chars(&s, &down) {
            SortField::BytesIn
        } else if same_chars(&s, &up) {
            SortField::BytesOut
        } else if same_chars(&s, &rate_out) {
            SortField::RateOut
        } else {
            SortField::RateIn
        }
    }
}

} // verus!
