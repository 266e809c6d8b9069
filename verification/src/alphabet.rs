//! The shared activity alphabet.
//!
//! The key holder unions the activity labels of both parties, assigns
//! each a position, and appends the three reserved symbols `bottom`,
//! `start` and `end` at the last three positions.  Positions are encoded
//! as 16-bit activity indices, so the combined alphabet (including the
//! three reserved symbols) must fit into 16 bits; otherwise the alphabet
//! overflows and the setup fails.

use vstd::prelude::*;

verus! {

/// Errors of the protocol setup.
#[derive(Clone, Copy, PartialEq, Eq, Structural, Debug)]
pub enum ProtocolError {
    /// The combined alphabet does not fit the 16-bit activity index.
    AlphabetOverflow,
}

/// The agreed table of activity labels.  The position of a label is its
/// activity index; the last three positions hold the reserved symbols.
#[verifier::ext_equal]
pub struct ActivityTable {
    pub labels: Vec<String>,
}

impl ActivityTable {
    /// The table is well formed: at least the three reserved symbols,
    /// everything fits the 16-bit index, all labels are distinct, and the
    /// reserved symbols sit at the last three positions.
    pub open spec fn wf(self) -> bool {
        &&& 3 <= self.labels@.len() <= 0x10000
        &&& forall|a: int, b: int|
            0 <= a < b < self.labels@.len() ==> self.labels@[a]@ != self.labels@[b]@
        &&& self.labels@[self.labels@.len() - 3]@ == "bottom"@
        &&& self.labels@[self.labels@.len() - 2]@ == "start"@
        &&& self.labels@[self.labels@.len() - 1]@ == "end"@
    }

    /// The number of real activities.
    pub open spec fn n_real(self) -> int {
        self.labels@.len() - 3
    }

    /// The reserved index that marks a dropped candidate.
    pub open spec fn bot_spec(self) -> u16 {
        (self.labels@.len() - 3) as u16
    }

    /// The reserved index of the start marker.
    pub open spec fn start_spec(self) -> u16 {
        (self.labels@.len() - 2) as u16
    }

    /// The reserved index of the end marker.
    pub open spec fn end_spec(self) -> u16 {
        (self.labels@.len() - 1) as u16
    }

    /// The table holds this label.
    pub open spec fn has(self, v: Seq<char>) -> bool {
        exists|i: int| 0 <= i < self.labels@.len() && self.labels@[i]@ == v
    }

    /// The position of a label the table holds.
    pub open spec fn pos_of(self, v: Seq<char>) -> int {
        choose|i: int| 0 <= i < self.labels@.len() && self.labels@[i]@ == v
    }

    /// In a well-formed table the position of a held label is the one
    /// index carrying it.
    pub proof fn lemma_pos_of(self, v: Seq<char>, i: int)
        requires
            self.wf(),
            0 <= i < self.labels@.len(),
            self.labels@[i]@ == v,
        ensures
            self.has(v),
            self.pos_of(v) == i,
    {
        assert(self.has(v));
        let j = self.pos_of(v);
        assert(0 <= j < self.labels@.len() && self.labels@[j]@ == v);
        if i != j {
            assert(self.labels@[i]@ != self.labels@[j]@);
        }
    }

    /// The number of activities in the table, reserved symbols included.
    pub fn len(&self) -> (r: usize)
        ensures
            r == self.labels@.len(),
    {
        self.labels.len()
    }

    /// The index that marks a dropped candidate.
    pub fn bot(&self) -> (r: u16)
        requires
            self.wf(),
        ensures
            r == self.bot_spec(),
    {
        (self.labels.len() - 3) as u16
    }

    /// The index of the start marker.
    pub fn start_idx(&self) -> (r: u16)
        requires
            self.wf(),
        ensures
            r == self.start_spec(),
    {
        (self.labels.len() - 2) as u16
    }

    /// The index of the end marker.
    pub fn end_idx(&self) -> (r: u16)
        requires
            self.wf(),
        ensures
            r == self.end_spec(),
    {
        (self.labels.len() - 1) as u16
    }

    /// Finds the index of a label by linear search.
    pub fn lookup(&self, l: &String) -> (r: Option<u16>)
        requires
            self.wf(),
        ensures
            match r {
                Some(p) => p < self.labels@.len() && self.labels@[p as int]@ == l@,
                None => forall|a: int| 0 <= a < self.labels@.len() ==> self.labels@[a]@ != l@,
            },
    {
        let mut a: usize = 0;
        while a < self.labels.len()
            invariant
                self.wf(),
                0 <= a <= self.labels@.len(),
                forall|b: int| 0 <= b < a ==> self.labels@[b]@ != l@,
            decreases self.labels@.len() - a,
        {
            if self.labels[a].eq(l) {
                return Some(a as u16);
            }
            a = a + 1;
        }
        None
    }

    /// The label at an index; the caller hands in an index that is in
    /// range.
    pub fn label_at(&self, p: u16) -> (r: String)
        requires
            (p as int) < self.labels@.len(),
        ensures
            r@ == self.labels@[p as int]@,
    {
        self.labels[p as usize].clone()
    }
}

/// Builds the agreed activity table from the union of both parties'
/// activity labels.  The input labels are distinct and do not use the
/// three reserved names.  Fails with an alphabet overflow when the
/// combined alphabet does not fit the 16-bit index.
pub fn build_table(reals: Vec<String>) -> (r: Result<ActivityTable, ProtocolError>)
    requires
        forall|a: int, b: int| 0 <= a < b < reals@.len() ==> reals@[a]@ != reals@[b]@,
        forall|a: int|
            0 <= a < reals@.len() ==> reals@[a]@ != "bottom"@ && reals@[a]@ != "start"@
                && reals@[a]@ != "end"@,
    ensures
        match r {
            Ok(t) => t.wf() && t.n_real() == reals@.len() && (forall|a: int|
                0 <= a < reals@.len() ==> t.labels@[a]@ == reals@[a]@) && reals@.len()
                + 3 <= 0x10000,
            Err(e) => e == ProtocolError::AlphabetOverflow && reals@.len() + 3 > 0x10000,
        },
{
    if reals.len() > 0x10000 - 3 {
        return Err(ProtocolError::AlphabetOverflow);
    }
    let mut labels = reals;
    let ghost n = labels@.len();
    labels.push(bottom_label());
    labels.push(start_label());
    labels.push(end_label());
    proof {
        reveal_strlit("bottom");
        reveal_strlit("start");
        reveal_strlit("end");
        assert(labels@[n as int]@ == "bottom"@);
        assert(labels@[n as int + 1]@ == "start"@);
        assert(labels@[n as int + 2]@ == "end"@);
    }
    let t = ActivityTable { labels };
    assert forall|a: int, b: int|
        0 <= a < b < t.labels@.len() implies t.labels@[a]@ != t.labels@[b]@ by {
        reveal_strlit("bottom");
        reveal_strlit("start");
        reveal_strlit("end");
    }
    Ok(t)
}

/// Copies an activity table label by label.
pub fn clone_table(t: &ActivityTable) -> (r: ActivityTable)
    ensures
        r.labels@ == t.labels@,
{
    let mut labels: Vec<String> = Vec::new();
    let mut i: usize = 0;
    while i < t.labels.len()
        invariant
            0 <= i <= t.labels@.len(),
            labels@ == t.labels@.take(i as int),
        decreases t.labels@.len() - i,
    {
        labels.push(t.labels[i].clone());
        proof {
            assert(labels@ =~= t.labels@.take(i as int + 1));
        }
        i = i + 1;
    }
    proof {
        assert(labels@ =~= t.labels@);
    }
    ActivityTable { labels }
}

/// The reserved label of the drop sentinel.
pub fn bottom_label() -> (r: String)
    ensures
        r@ == "bottom"@,
{
    let s = "bottom";
    s.to_owned()
}

/// The reserved label of the start marker.
pub fn start_label() -> (r: String)
    ensures
        r@ == "start"@,
{
    let s = "start";
    s.to_owned()
}

/// The reserved label of the end marker.
pub fn end_label() -> (r: String)
    ensures
        r@ == "end"@,
{
    let s = "end";
    s.to_owned()
}

} // verus!
