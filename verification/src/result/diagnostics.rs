//! Named diagnostic records collected while solving.
use vstd::prelude::*;

use crate::result::status::StageId;

verus! {

/// A named record with a message, the stage that made it and its key/value details in the
/// order they were recorded.
#[derive(Debug, Clone, PartialEq, Eq)]
pub struct DiagnosticRecord {
    pub name: String,
    pub message: String,
    pub stage: Option<StageId>,
    pub details: Vec<(String, String)>,
}

/// The details as key and value texts.
pub open spec fn details_view(ds: Seq<(String, String)>) -> Seq<(Seq<char>, Seq<char>)> {
    ds.map_values(|d: (String, String)| (d.0@, d.1@))
}

/// `i` is the first position of a detail with key `k`.
pub open spec fn is_first_key(ds: Seq<(Seq<char>, Seq<char>)>, k: Seq<char>, i: int) -> bool {
    &&& 0 <= i < ds.len()
    &&& ds[i].0 == k
    &&& forall|j: int| 0 <= j < i ==> (#[trigger] ds[j]).0 != k
}

/// The details with `k` set to `v`: its first entry replaced, or a new entry at the end.
pub open spec fn detail_set(ds: Seq<(Seq<char>, Seq<char>)>, k: Seq<char>, v: Seq<char>) -> Seq<(Seq<char>, Seq<char>)> {
    if exists|i: int| is_first_key(ds, k, i) {
        ds.update(choose|i: int| is_first_key(ds, k, i), (k, v))
    } else {
        ds.push((k, v))
    }
}

impl DiagnosticRecord {
    /// A record with no details.
    pub fn new(name: &str, message: &str, stage: Option<StageId>) -> (d: DiagnosticRecord)
        ensures
            d.name@ == name@,
            d.message@ == message@,
            d.stage == stage,
            d.details@.len() == 0,
    {
        DiagnosticRecord {
            name: name.to_owned(),
            message: message.to_owned(),
            stage,
            details: Vec::new(),
        }
    }

    /// Records one more detail.
    pub fn add_detail(&mut self, key: &str, value: String)
        ensures
            final(self).name == old(self).name,
            final(self).message == old(self).message,
            final(self).stage == old(self).stage,
            details_view(final(self).details@) == details_view(old(self).details@).push((key@, value@)),
    {
        let ghost before = self.details@;
        self.details.push((key.to_owned(), value));
        assert(details_view(self.details@) =~= details_view(before).push((key@, value@)));
    }

    /// Sets detail `key` to `value`, replacing the value it had.
    pub fn set_detail(&mut self, key: &str, value: String)
        ensures
            final(self).name == old(self).name,
            final(self).message == old(self).message,
            final(self).stage == old(self).stage,
            details_view(final(self).details@) == detail_set(details_view(old(self).details@), key@, value@),
    {
        let ghost before = self.details@;
        let ghost bv = details_view(before);
        assert(bv == details_view(old(self).details@));
        let ghost vv = value@;
        let k = key.to_owned();
        let n = self.details.len();
        let mut i: usize = 0;
        while i < n
            invariant
                n == self.details@.len(),
                self.details@ == before,
                before == old(self).details@,
                self.name == old(self).name,
                self.message == old(self).message,
                self.stage == old(self).stage,
                bv == details_view(before),
                k@ == key@,
                value@ == vv,
                i <= n,
                forall|j: int| 0 <= j < i ==> (#[trigger] bv[j]).0 != key@,
            decreases n - i,
        {
            if self.details[i].0 == k {
                proof {
                    assert(bv[i as int].0 == key@);
                    assert(is_first_key(bv, key@, i as int));
                    let c = choose|c: int| is_first_key(bv, key@, c);
                    if c < i {
                        assert(bv[c].0 != key@);
                    } else if i < c {
                        assert(bv[i as int].0 != key@);
                    }
                    assert(c == i as int);
                    assert(detail_set(bv, key@, vv) == bv.update(i as int, (key@, vv)));
                }
                self.details.set(i, (k, value));
                proof {
                    assert(details_view(self.details@) =~= bv.update(i as int, (key@, vv)));
                }
                return;
            }
            i = i + 1;
        }
        proof {
            if exists|c: int| is_first_key(bv, key@, c) {
                let c = choose|c: int| is_first_key(bv, key@, c);
                assert(bv[c].0 != key@);
            }
        }
        self.details.push((k, value));
        proof {
            assert(details_view(self.details@) =~= bv.push((key@, value@)));
        }
    }
}

} // verus!
