//! The ledger of stamps: the typed records, their text form in the persisted
//! relation, and the accessors that read and change the ledger.

use crate::time::{rfc3339_instant, rfc3339_text, Duration, Timestamp};
use vstd::prelude::*;
use vstd::string::*;

verus! {

/// Stamping direction (checked -in or -out).
#[derive(Clone, Copy, Debug, PartialEq, Eq, Structural)]
pub enum InOut {
    /// Stamp is a check-in
    In,
    /// Stamp is a check-out
    Out,
}

/// Error of reading a direction from text.
#[derive(Clone, Copy, Debug, PartialEq, Eq, Structural)]
pub struct ParseInOutError;

/// What `str::trim` returns: the text without its leading and trailing
/// whitespace.
pub uninterp spec fn trimmed(text: Seq<char>) -> Seq<char>;

/// What `str::to_lowercase` returns: the lower-case equivalent of the text.
pub uninterp spec fn lowercased(text: Seq<char>) -> Seq<char>;

/// Calls `str::trim`; the contract only names the slice returned.
#[verifier::external_body]
fn trim_text(text: &str) -> (r: &str)
    ensures
        r@ == trimmed(text@),
{
    text.trim()
}

/// Calls `str::to_lowercase`; the contract only names the string returned.
#[verifier::external_body]
fn lowercase_text(text: &str) -> (r: String)
    ensures
        r@ == lowercased(text@),
{
    text.to_lowercase()
}

/// The direction that a trimmed lower-case word stands for.
pub open spec fn direction_of(word: Seq<char>) -> Option<InOut> {
    if word == seq!['i', 'n'] {
        Some(InOut::In)
    } else if word == seq!['o', 'u', 't'] {
        Some(InOut::Out)
    } else {
        None
    }
}

impl InOut {
    /// The text under which the direction is persisted.
    pub open spec fn text(self) -> Seq<char> {
        match self {
            InOut::In => seq!['I', 'n'],
            InOut::Out => seq!['O', 'u', 't'],
        }
    }

    /// Reads a direction from a word that is already trimmed and in lower
    /// case: `in` or `out`, nothing else.
    pub fn from_word(word: &str) -> (r: Result<InOut, ParseInOutError>)
        ensures
            r == match direction_of(word@) {
                Some(d) => Ok::<InOut, ParseInOutError>(d),
                None => Err(ParseInOutError),
            },
    {
        let n = word.unicode_len();
        if n == 2 && word.get_char(0) == 'i' && word.get_char(1) == 'n' {
            assert(word@ =~= seq!['i', 'n']);
            Ok(InOut::In)
        } else if n == 3 && word.get_char(0) == 'o' && word.get_char(1) == 'u' && word.get_char(2)
            == 't' {
            assert(word@ =~= seq!['o', 'u', 't']);
            assert(seq!['o', 'u', 't'].len() != seq!['i', 'n'].len());
            Ok(InOut::Out)
        } else {
            assert(seq!['i', 'n'].len() == 2 && seq!['i', 'n'][0] == 'i' && seq!['i', 'n'][1]
                == 'n');
            assert(seq!['o', 'u', 't'].len() == 3 && seq!['o', 'u', 't'][0] == 'o' && seq![
                'o',
                'u',
                't',
            ][1] == 'u' && seq!['o', 'u', 't'][2] == 't');
            Err(ParseInOutError)
        }
    }

    /// Reads a direction from text, ignoring surrounding whitespace and
    /// letter case.
    pub fn from_str(s: &str) -> (r: Result<InOut, ParseInOutError>)
        ensures
            r == match direction_of(lowercased(trimmed(s@))) {
                Some(d) => Ok::<InOut, ParseInOutError>(d),
                None => Err(ParseInOutError),
            },
    {
        let lowered = lowercase_text(trim_text(s));
        InOut::from_word(lowered.as_str())
    }

    /// The text under which the direction is persisted: `In` or `Out`.
    pub fn to_string(&self) -> (r: String)
        ensures
            r@ == self.text(),
    {
        proof {
            reveal_strlit("In");
            reveal_strlit("Out");
        }
        match self {
            InOut::In => {
                let r = String::from_str("In");
                assert(r@ =~= seq!['I', 'n']);
                r
            },
            InOut::Out => {
                let r = String::from_str("Out");
                assert(r@ =~= seq!['O', 'u', 't']);
                r
            },
        }
    }
}

impl core::str::FromStr for InOut {
    type Err = ParseInOutError;

    /// Reads a direction from text, ignoring surrounding whitespace and letter case.
    fn from_str(s: &str) -> (r: Result<InOut, ParseInOutError>)
        ensures
            r == match direction_of(lowercased(trimmed(s@))) {
                Some(d) => Ok::<InOut, ParseInOutError>(d),
                None => Err(ParseInOutError),
            },
    {
        InOut::from_str(s)
    }
}

/// Error of a ledger operation.
#[derive(Clone, Copy, Debug, PartialEq, Eq, Structural)]
pub enum DbError {
    /// The store refused the operation: no further identity can be assigned,
    /// or a restored record does not come after the records already held.
    SqLiteError,
    /// The relation of stamps was not created prior to the operation.
    DbNotOpenError,
    /// Requested entry does not exist in the ledger.
    NoSuchEntry,
    /// A persisted record does not read as a timestamp and a direction.
    ParseError,
}

/// Represent a "stamp", i.e. a check-out or a check-in time.
#[derive(Clone, Copy, Debug, PartialEq, Eq, Structural)]
pub struct Stamp {
    /// Stamp unique identity; 0 until the ledger has assigned one.
    pub id: i64,
    /// Stamp timestamp, UTC.
    pub date: Timestamp,
    /// Marker if the stamp is a check-in or a check-out.
    pub in_out: InOut,
}

/// The stamps kept, in the order of their identities. A ledger starts
/// without its relation; `Stamp::create` sets it up.
pub struct Ledger {
    created: bool,
    stamps: Vec<Stamp>,
}

/// Identities start at 1 and strictly increase along the records.
pub open spec fn well_ordered(s: Seq<Stamp>) -> bool {
    &&& forall|i: int| 0 <= i < s.len() ==> (#[trigger] s[i]).id >= 1
    &&& forall|i: int, j: int| 0 <= i < j < s.len() ==> (#[trigger] s[i]).id < (#[trigger] s[j]).id
}

/// Each record's identity is one more than that of the record before it.
pub open spec fn contiguous(s: Seq<Stamp>) -> bool {
    forall|i: int| 0 <= i < s.len() - 1 ==> (#[trigger] s[i + 1]).id == s[i].id + 1
}

/// Some record carries the identity `id`.
pub open spec fn holds(s: Seq<Stamp>, id: int) -> bool {
    exists|i: int| 0 <= i < s.len() && (#[trigger] s[i]).id == id
}

/// The position of a record that carries the identity `id`.
pub open spec fn position(s: Seq<Stamp>, id: int) -> int {
    choose|i: int| 0 <= i < s.len() && (#[trigger] s[i]).id == id
}

/// The record that carries the identity `id`.
pub open spec fn record(s: Seq<Stamp>, id: int) -> Stamp {
    s[position(s, id)]
}

/// The identity that the next inserted record receives.
pub open spec fn next_id(s: Seq<Stamp>) -> int {
    if s.len() == 0 {
        1
    } else {
        s.last().id + 1
    }
}

/// The position, at or after `k`, of the first record whose timestamp is not
/// before `t`; the number of records where there is none.
pub open spec fn first_at_or_after(s: Seq<Stamp>, t: int, k: int) -> int
    decreases s.len() - k,
{
    if k < 0 || k >= s.len() {
        s.len() as int
    } else if s[k].date@ >= t {
        k
    } else {
        first_at_or_after(s, t, k + 1)
    }
}

/// The records with the identities `id`, `id + 1`, ... up to, and without,
/// the first identity that no record carries.
pub open spec fn run_from(s: Seq<Stamp>, id: int) -> Seq<Stamp>
    decreases i64::MAX + 1 - id,
{
    if id <= i64::MAX && holds(s, id) {
        seq![record(s, id)] + run_from(s, id + 1)
    } else {
        Seq::empty()
    }
}

/// The records after an update in place: the record with the identity of
/// `stamp`, if there is one, now equals `stamp`.
pub open spec fn updated(s: Seq<Stamp>, stamp: Stamp) -> Seq<Stamp> {
    if holds(s, stamp.id as int) {
        s.update(position(s, stamp.id as int), stamp)
    } else {
        s
    }
}

/// The records without the one that carries the identity `id`.
pub open spec fn deleted(s: Seq<Stamp>, id: int) -> Seq<Stamp> {
    if holds(s, id) {
        s.remove(position(s, id))
    } else {
        s
    }
}

/// In a well-ordered ledger the record at position `i` is the one found
/// under its identity.
pub proof fn lemma_record_at(s: Seq<Stamp>, i: int)
    requires
        well_ordered(s),
        0 <= i < s.len(),
    ensures
        holds(s, s[i].id as int),
        position(s, s[i].id as int) == i,
        record(s, s[i].id as int) == s[i],
{
    let p = position(s, s[i].id as int);
    assert(0 <= p < s.len() && s[p].id == s[i].id);
    if p < i {
        assert(s[p].id < s[i].id);
    } else if i < p {
        assert(s[i].id < s[p].id);
    }
}

impl View for Ledger {
    type V = Seq<Stamp>;

    closed spec fn view(&self) -> Seq<Stamp> {
        self.stamps@
    }
}

impl Ledger {
    /// The relation of stamps exists.
    pub closed spec fn is_created(&self) -> bool {
        self.created
    }

    /// The ledger's invariant: without the relation there are no records,
    /// and the records are well ordered.
    #[verifier::type_invariant]
    pub open spec fn wf(&self) -> bool {
        &&& !self.is_created() ==> self@.len() == 0
        &&& well_ordered(self@)
    }

    /// A ledger without its relation.
    pub fn new() -> (ledger: Ledger)
        ensures
            !ledger.is_created(),
            ledger@ == Seq::<Stamp>::empty(),
    {
        Ledger { created: false, stamps: Vec::new() }
    }

    /// Tells whether the relation of stamps exists.
    pub fn created(&self) -> (b: bool)
        ensures
            b == self.is_created(),
    {
        self.created
    }

    /// The number of records.
    pub fn len(&self) -> (n: usize)
        ensures
            n == self@.len(),
    {
        self.stamps.len()
    }

    /// Moves the records out, to be changed and put back.
    fn take(&mut self) -> (stamps: Vec<Stamp>)
        ensures
            stamps@ == old(self)@,
            final(self)@ == Seq::<Stamp>::empty(),
            final(self).is_created() == old(self).is_created(),
    {
        let mut stamps = Vec::new();
        core::mem::swap(&mut self.stamps, &mut stamps);
        stamps
    }

    /// The position of the record with the identity `id`, found by
    /// bisection over the ordered identities.
    fn find(&self, id: i64) -> (r: Option<usize>)
        ensures
            r matches Some(i) ==> i < self@.len() && self@[i as int].id == id && position(
                self@,
                id as int,
            ) == i,
            r is Some <==> holds(self@, id as int),
    {
        proof {
            use_type_invariant(self);
        }
        let mut lo: usize = 0;
        let mut hi: usize = self.stamps.len();
        while lo < hi
            invariant
                self.wf(),
                lo <= hi <= self.stamps@.len(),
                forall|j: int| 0 <= j < lo ==> (#[trigger] self.stamps@[j]).id < id,
                forall|j: int| hi <= j < self.stamps@.len() ==> (#[trigger] self.stamps@[j]).id > id,
            decreases hi - lo,
        {
            let mid = lo + (hi - lo) / 2;
            let mid_id = self.stamps[mid].id;
            if mid_id == id {
                proof {
                    lemma_record_at(self@, mid as int);
                }
                return Some(mid);
            } else if mid_id < id {
                assert forall|j: int| 0 <= j < mid + 1 implies (#[trigger] self.stamps@[j]).id
                    < id by {
                    if j < mid {
                        assert(self.stamps@[j].id < self.stamps@[mid as int].id);
                    }
                }
                lo = mid + 1;
            } else {
                assert forall|j: int| mid <= j < self.stamps@.len() implies (
                #[trigger] self.stamps@[j]).id > id by {
                    if mid < j {
                        assert(self.stamps@[mid as int].id < self.stamps@[j].id);
                    }
                }
                hi = mid;
            }
        }
        None
    }

    /// Takes in a record that already carries its identity, as when the
    /// persisted relation is read back. The record must come after those
    /// already held.
    pub fn restore(&mut self, stamp: Stamp) -> (r: Result<(), DbError>)
        ensures
            final(self).is_created() == old(self).is_created(),
            r == if !old(self).is_created() {
                Err::<(), DbError>(DbError::DbNotOpenError)
            } else if stamp.id < next_id(old(self)@) {
                Err(DbError::SqLiteError)
            } else {
                Ok(())
            },
            final(self)@ == if r is Ok {
                old(self)@.push(stamp)
            } else {
                old(self)@
            },
    {
        proof {
            use_type_invariant(&*self);
        }
        if !self.created {
            return Err(DbError::DbNotOpenError);
        }
        let n = self.stamps.len();
        if n == 0 {
            if stamp.id < 1 {
                return Err(DbError::SqLiteError);
            }
        } else if stamp.id <= self.stamps[n - 1].id {
            return Err(DbError::SqLiteError);
        }
        let mut stamps = self.take();
        stamps.push(stamp);
        self.stamps = stamps;
        Ok(())
    }
}

/// What the persisted row `(id, datetime, in_out)` reads as: the timestamp
/// is RFC 3339 text, the direction is read without regard to case and
/// surrounding whitespace.
pub open spec fn row_stamp(id: i64, datetime: Seq<char>, in_out: Seq<char>) -> Result<
    Stamp,
    DbError,
> {
    match (rfc3339_instant(datetime), direction_of(lowercased(trimmed(in_out)))) {
        (Some(nanos), Some(direction)) => Ok(
            Stamp { id, date: Timestamp { nanos }, in_out: direction },
        ),
        _ => Err(DbError::ParseError),
    }
}

/// What inserting `stamp` into the records `s` returns: the stamp under the
/// identity assigned to it.
pub open spec fn inserted(created: bool, s: Seq<Stamp>, stamp: Stamp) -> Result<Stamp, DbError> {
    if !created {
        Err(DbError::DbNotOpenError)
    } else if next_id(s) > i64::MAX {
        Err(DbError::SqLiteError)
    } else {
        Ok(Stamp { id: next_id(s) as i64, date: stamp.date, in_out: stamp.in_out })
    }
}

/// What a lookup by identity returns.
pub open spec fn looked_up(created: bool, s: Seq<Stamp>, id: int) -> Result<Stamp, DbError> {
    if !created {
        Err(DbError::DbNotOpenError)
    } else if holds(s, id) {
        Ok(record(s, id))
    } else {
        Err(DbError::NoSuchEntry)
    }
}

/// What a lookup of the first record at or after the instant `t` returns.
pub open spec fn looked_up_after(created: bool, s: Seq<Stamp>, t: int) -> Result<Stamp, DbError> {
    if !created {
        Err(DbError::DbNotOpenError)
    } else if first_at_or_after(s, t, 0) < s.len() {
        Ok(s[first_at_or_after(s, t, 0)])
    } else {
        Err(DbError::NoSuchEntry)
    }
}

/// `first_at_or_after(s, t, k)` is the least position from `k` on whose
/// record is not before `t`.
pub proof fn lemma_first_at_or_after(s: Seq<Stamp>, t: int, k: int)
    requires
        0 <= k <= s.len(),
    ensures
        k <= first_at_or_after(s, t, k) <= s.len(),
        first_at_or_after(s, t, k) < s.len() ==> s[first_at_or_after(s, t, k)].date@ >= t,
        forall|j: int| k <= j < first_at_or_after(s, t, k) ==> (#[trigger] s[j]).date@ < t,
    decreases s.len() - k,
{
    if k < s.len() && s[k].date@ < t {
        lemma_first_at_or_after(s, t, k + 1);
    }
}

impl Stamp {
    /// Construct a new stamp with exact values.
    pub fn new(id: i64, date: Timestamp, in_out: InOut) -> (stamp: Stamp)
        ensures
            stamp == (Stamp { id, date, in_out }),
    {
        Stamp { id, date, in_out }
    }

    /// Create a new stamp, bearing the current timestamp and the check-IN
    /// direction. `None` when the clock gives no timestamp.
    pub fn check_in() -> (stamp: Option<Stamp>)
        ensures
            stamp matches Some(s) ==> s.id == 0 && s.in_out == InOut::In,
    {
        Stamp::from_reading(Timestamp::now(), InOut::In)
    }

    /// Create a new stamp, bearing the current timestamp and the check-OUT
    /// direction. `None` when the clock gives no timestamp.
    pub fn check_out() -> (stamp: Option<Stamp>)
        ensures
            stamp matches Some(s) ==> s.id == 0 && s.in_out == InOut::Out,
    {
        Stamp::from_reading(Timestamp::now(), InOut::Out)
    }

    /// The new stamp that a reading of the clock gives: one without an
    /// identity yet, bearing the instant read and the direction `in_out`;
    /// none where the clock gave no instant.
    pub fn from_reading(reading: Option<Timestamp>, in_out: InOut) -> (stamp: Option<Stamp>)
        ensures
            stamp == match reading {
                Some(date) => Some(Stamp { id: 0, date, in_out }),
                None => None,
            },
    {
        match reading {
            Some(date) => Some(Stamp { id: 0, date, in_out }),
            None => None,
        }
    }

    /// Reads a stamp from the columns of its persisted row.
    pub fn from_row(id: i64, datetime: &str, in_out: &str) -> (r: Result<Stamp, DbError>)
        ensures
            r == row_stamp(id, datetime@, in_out@),
    {
        let date = match Timestamp::parse_from_rfc3339(datetime) {
            Some(date) => date,
            None => { return Err(DbError::ParseError); },
        };
        match InOut::from_str(in_out) {
            Ok(direction) => Ok(Stamp { id, date, in_out: direction }),
            Err(_) => Err(DbError::ParseError),
        }
    }

    /// The text columns `(datetime, in_out)` of the stamp's persisted row.
    pub fn to_row(&self) -> (row: (String, String))
        ensures
            row.0@ == rfc3339_text(self.date.nanos),
            row.1@ == self.in_out.text(),
    {
        (self.date.to_rfc3339(), self.in_out.to_string())
    }

    /// Create the relation of stamps, unless it exists; its records stay.
    pub fn create(ledger: &mut Ledger) -> (r: Result<(), DbError>)
        ensures
            r is Ok,
            final(ledger).is_created(),
            final(ledger)@ == old(ledger)@,
    {
        proof {
            use_type_invariant(&*ledger);
        }
        ledger.created = true;
        Ok(())
    }

    /// Delete the relation as a whole, with its records.
    pub fn drop(ledger: &mut Ledger) -> (r: Result<(), DbError>)
        ensures
            !final(ledger).is_created(),
            final(ledger)@ == Seq::<Stamp>::empty(),
            r == if old(ledger).is_created() {
                Ok::<(), DbError>(())
            } else {
                Err(DbError::DbNotOpenError)
            },
    {
        proof {
            use_type_invariant(&*ledger);
        }
        if !ledger.created {
            return Err(DbError::DbNotOpenError);
        }
        ledger.stamps = Vec::new();
        ledger.created = false;
        Ok(())
    }

    /// Insert (create) the stamp into the ledger, which assigns its
    /// identity: one more than the largest identity held, or 1 in an empty
    /// ledger. The identity that the stamp carried before is ignored.
    pub fn insert(&mut self, ledger: &mut Ledger) -> (r: Result<Stamp, DbError>)
        ensures
            final(ledger).is_created() == old(ledger).is_created(),
            r == inserted(old(ledger).is_created(), old(ledger)@, *old(self)),
            r matches Ok(stamp) ==> *final(self) == stamp && final(ledger)@ == old(ledger)@.push(
                stamp,
            ),
            r is Err ==> *final(self) == *old(self) && final(ledger)@ == old(ledger)@,
    {
        proof {
            use_type_invariant(&*ledger);
        }
        if !ledger.created {
            return Err(DbError::DbNotOpenError);
        }
        let n = ledger.stamps.len();
        let id: i64 = if n == 0 {
            1
        } else {
            let last_id = ledger.stamps[n - 1].id;
            if last_id == i64::MAX {
                return Err(DbError::SqLiteError);
            }
            last_id + 1
        };
        self.id = id;
        let stamp = Stamp { id, date: self.date, in_out: self.in_out };
        let mut stamps = ledger.take();
        proof {
            lemma_push_well_ordered(stamps@, stamp);
        }
        stamps.push(stamp);
        ledger.stamps = stamps;
        Ok(stamp)
    }

    /// Update the ledger's record of this stamp's identity with the stamp's
    /// timestamp and direction. Without such a record nothing changes.
    pub fn update(&self, ledger: &mut Ledger) -> (r: Result<(), DbError>)
        ensures
            final(ledger).is_created() == old(ledger).is_created(),
            r == if old(ledger).is_created() {
                Ok::<(), DbError>(())
            } else {
                Err(DbError::DbNotOpenError)
            },
            final(ledger)@ == updated(old(ledger)@, *self),
    {
        proof {
            use_type_invariant(&*ledger);
        }
        if !ledger.created {
            assert(!holds(ledger@, self.id as int));
            return Err(DbError::DbNotOpenError);
        }
        match ledger.find(self.id) {
            Some(i) => {
                let mut stamps = ledger.take();
                stamps.set(i, *self);
                ledger.stamps = stamps;
            },
            None => {},
        }
        Ok(())
    }

    /// Delete the record of this stamp's identity from the ledger. Without
    /// such a record nothing changes.
    pub fn delete(&self, ledger: &mut Ledger) -> (r: Result<(), DbError>)
        ensures
            final(ledger).is_created() == old(ledger).is_created(),
            r == if old(ledger).is_created() {
                Ok::<(), DbError>(())
            } else {
                Err(DbError::DbNotOpenError)
            },
            final(ledger)@ == deleted(old(ledger)@, self.id as int),
    {
        proof {
            use_type_invariant(&*ledger);
        }
        if !ledger.created {
            assert(!holds(ledger@, self.id as int));
            return Err(DbError::DbNotOpenError);
        }
        match ledger.find(self.id) {
            Some(i) => {
                let mut stamps = ledger.take();
                let ghost before = stamps@;
                stamps.remove(i);
                assert(stamps@ == before.remove(i as int));
                assert forall|a: int, b: int| 0 <= a < b < stamps@.len() implies (
                #[trigger] stamps@[a]).id < (#[trigger] stamps@[b]).id by {
                    let a0 = if a < i { a } else { a + 1 };
                    let b0 = if b < i { b } else { b + 1 };
                    assert(stamps@[a] == before[a0]);
                    assert(stamps@[b] == before[b0]);
                }
                assert forall|a: int| 0 <= a < stamps@.len() implies (#[trigger] stamps@[a]).id
                    >= 1 by {
                    let a0 = if a < i { a } else { a + 1 };
                    assert(stamps@[a] == before[a0]);
                }
                ledger.stamps = stamps;
            },
            None => {},
        }
        Ok(())
    }

    /// Get the stamp with the given identity.
    pub fn get(ledger: &Ledger, id: i64) -> (r: Result<Stamp, DbError>)
        ensures
            r == looked_up(ledger.is_created(), ledger@, id as int),
    {
        proof {
            use_type_invariant(ledger);
        }
        if !ledger.created {
            return Err(DbError::DbNotOpenError);
        }
        match ledger.find(id) {
            Some(i) => Ok(ledger.stamps[i]),
            None => Err(DbError::NoSuchEntry),
        }
    }

    /// Get the stamp previous to this one: the one whose identity is one
    /// less. `None` if there is none.
    pub fn previous(&self, ledger: &Ledger) -> (r: Option<Stamp>)
        ensures
            r == if holds(ledger@, self.id - 1) {
                Some(record(ledger@, self.id - 1))
            } else {
                None
            },
    {
        proof {
            use_type_invariant(ledger);
        }
        if self.id == i64::MIN {
            return None;
        }
        match Stamp::get(ledger, self.id - 1) {
            Ok(stamp) => Some(stamp),
            Err(_) => {
                assert(!ledger.is_created() ==> !holds(ledger@, self.id - 1));
                None
            },
        }
    }

    /// Get the very first stamp: the one with the smallest identity. `None`
    /// if there is no stamp at all.
    pub fn first(ledger: &Ledger) -> (r: Option<Stamp>)
        ensures
            r == if ledger@.len() > 0 {
                Some(ledger@.first())
            } else {
                None
            },
            r matches Some(f) ==> forall|i: int|
                0 <= i < ledger@.len() ==> f.id <= (#[trigger] ledger@[i]).id,
    {
        proof {
            use_type_invariant(ledger);
        }
        if ledger.stamps.len() == 0 {
            None
        } else {
            Some(ledger.stamps[0])
        }
    }

    /// Get the very last stamp: the one with the largest identity. `None`
    /// if there is no stamp at all.
    pub fn last(ledger: &Ledger) -> (r: Option<Stamp>)
        ensures
            r == if ledger@.len() > 0 {
                Some(ledger@.last())
            } else {
                None
            },
            r matches Some(l) ==> forall|i: int|
                0 <= i < ledger@.len() ==> (#[trigger] ledger@[i]).id <= l.id,
    {
        proof {
            use_type_invariant(ledger);
        }
        let n = ledger.stamps.len();
        if n == 0 {
            None
        } else {
            Some(ledger.stamps[n - 1])
        }
    }

    /// Get the first stamp, in the order of identities, whose timestamp is
    /// at or after `initial_date`.
    pub fn get_after(ledger: &Ledger, initial_date: &Timestamp) -> (r: Result<Stamp, DbError>)
        ensures
            r == looked_up_after(ledger.is_created(), ledger@, initial_date@),
    {
        if !ledger.created {
            return Err(DbError::DbNotOpenError);
        }
        let mut i: usize = 0;
        while i < ledger.stamps.len()
            invariant
                ledger.created,
                i <= ledger.stamps@.len(),
                first_at_or_after(ledger.stamps@, initial_date@, 0) == first_at_or_after(
                    ledger.stamps@,
                    initial_date@,
                    i as int,
                ),
            decreases ledger.stamps.len() - i,
        {
            if ledger.stamps[i].date.nanos >= initial_date.nanos {
                assert(first_at_or_after(ledger.stamps@, initial_date@, i as int) == i);
                return Ok(ledger.stamps[i]);
            }
            i += 1;
        }
        Err(DbError::NoSuchEntry)
    }

    /// Get an iterator over the ledger, starting from this stamp's
    /// identity.
    pub fn iter<'a>(&self, ledger: &'a Ledger) -> (it: StampIterator<'a>)
        ensures
            it.source() == ledger@,
            it.remaining() == run_from(ledger@, self.id as int),
    {
        StampIterator::new(ledger, self.id)
    }

    /// Compute the time delta between this stamp and another, whichever
    /// comes first.
    pub fn delta(&self, other: &Stamp) -> (d: Duration)
        ensures
            d@ == if other.date@ > self.date@ {
                other.date@ - self.date@
            } else {
                self.date@ - other.date@
            },
    {
        if other.date.nanos > self.date.nanos {
            other.date.since(&self.date)
        } else {
            self.date.since(&other.date)
        }
    }
}

/// Forward iteration over the stamps of a ledger by consecutive identities.
pub struct StampIterator<'a> {
    current_index: i64,
    exhausted: bool,
    db_conn: &'a Ledger,
}

impl<'a> StampIterator<'a> {
    /// The records of the ledger walked.
    pub closed spec fn source(&self) -> Seq<Stamp> {
        self.db_conn@
    }

    /// The stamps still to come, in order.
    pub closed spec fn remaining(&self) -> Seq<Stamp> {
        if self.exhausted {
            Seq::empty()
        } else {
            run_from(self.db_conn@, self.current_index as int)
        }
    }

    fn new(conn: &'a Ledger, start_index: i64) -> (it: Self)
        ensures
            it.source() == conn@,
            it.remaining() == run_from(conn@, start_index as int),
    {
        StampIterator { current_index: start_index, exhausted: false, db_conn: conn }
    }

    /// The next stamp: the one whose identity follows that of the stamp
    /// given before. `None`, now and from then on, when no stamp carries
    /// that identity.
    pub fn next(&mut self) -> (r: Option<Stamp>)
        ensures
            final(self).source() == old(self).source(),
            r == if old(self).remaining().len() > 0 {
                Some(old(self).remaining().first())
            } else {
                None
            },
            final(self).remaining() == if old(self).remaining().len() > 0 {
                old(self).remaining().drop_first()
            } else {
                old(self).remaining()
            },
    {
        proof {
            use_type_invariant(self.db_conn);
        }
        if self.exhausted {
            return None;
        }
        match Stamp::get(self.db_conn, self.current_index) {
            Ok(stamp) => {
                proof {
                    let rest = run_from(self.db_conn@, self.current_index + 1);
                    assert((seq![stamp] + rest).drop_first() =~= rest);
                }
                if self.current_index == i64::MAX {
                    self.exhausted = true;
                } else {
                    self.current_index += 1;
                }
                Some(stamp)
            },
            Err(_) => {
                assert(!self.db_conn.is_created() ==> !holds(
                    self.db_conn@,
                    self.current_index as int,
                ));
                self.exhausted = true;
                None
            },
        }
    }
}

/// Appending a record under the next identity keeps the records well
/// ordered.
pub proof fn lemma_push_well_ordered(s: Seq<Stamp>, stamp: Stamp)
    requires
        well_ordered(s),
        stamp.id >= next_id(s),
    ensures
        well_ordered(s.push(stamp)),
{
    let t = s.push(stamp);
    assert forall|i: int, j: int| 0 <= i < j < t.len() implies (#[trigger] t[i]).id < (
    #[trigger] t[j]).id by {
        if j == s.len() {
            assert(t[i] == s[i]);
            assert(s[i].id <= s.last().id) by {
                if i < s.len() - 1 {
                    assert(s[i].id < s[s.len() - 1].id);
                }
            }
        } else {
            assert(t[i] == s[i] && t[j] == s[j]);
        }
    }
    assert forall|i: int| 0 <= i < t.len() implies (#[trigger] t[i]).id >= 1 by {
        if i < s.len() {
            assert(t[i] == s[i]);
        } else if s.len() > 0 {
            assert(s[s.len() - 1].id >= 1);
        }
    }
}

/// Round trip: a stamp inserted is read back, under the identity that it
/// received, with the timestamp and the direction that it was inserted
/// with.
pub proof fn lemma_insert_then_get(s: Seq<Stamp>, stamp: Stamp, kept: Stamp)
    requires
        well_ordered(s),
        inserted(true, s, stamp) == Ok::<Stamp, DbError>(kept),
    ensures
        kept.date == stamp.date,
        kept.in_out == stamp.in_out,
        kept.id == next_id(s),
        well_ordered(s.push(kept)),
        looked_up(true, s.push(kept), kept.id as int) == Ok::<Stamp, DbError>(kept),
{
    lemma_push_well_ordered(s, kept);
    lemma_record_at(s.push(kept), s.len() as int);
}

/// Iteration stops at the first gap: where the records at the positions
/// `k..=m` carry consecutive identities and the identity after that of
/// record `m` is carried by none, the run from record `k` is exactly the
/// records `k..=m`.
pub proof fn lemma_run_stops_at_gap(s: Seq<Stamp>, k: int, m: int)
    requires
        well_ordered(s),
        0 <= k <= m < s.len(),
        forall|i: int| k <= i < m ==> (#[trigger] s[i + 1]).id == s[i].id + 1,
        m + 1 == s.len() || s[m + 1].id != s[m].id + 1,
    ensures
        run_from(s, s[k].id as int) == s.subrange(k, m + 1),
    decreases m - k,
{
    lemma_record_at(s, k);
    let rest = run_from(s, s[k].id + 1);
    assert(run_from(s, s[k].id as int) == seq![s[k]] + rest);
    if k == m {
        if holds(s, s[m].id + 1) {
            let p = position(s, s[m].id + 1);
            if p < m {
                assert(s[p].id < s[m].id);
            } else if p > m + 1 {
                assert(s[m].id < s[m + 1].id);
                assert(s[m + 1].id < s[p].id);
            }
        }
        assert(rest =~= Seq::<Stamp>::empty());
        assert(seq![s[k]] + rest =~= s.subrange(k, m + 1));
    } else {
        assert(s[k + 1].id == s[k].id + 1);
        lemma_run_stops_at_gap(s, k + 1, m);
        assert(seq![s[k]] + s.subrange(k + 1, m + 1) =~= s.subrange(k, m + 1));
    }
}

/// Iteration from the first record of a ledger with contiguous identities
/// visits every record, in order.
pub proof fn lemma_run_visits_all(s: Seq<Stamp>)
    requires
        well_ordered(s),
        contiguous(s),
        s.len() > 0,
    ensures
        run_from(s, s.first().id as int) == s,
        run_from(s, s.first().id as int).len() == s.len(),
{
    lemma_run_stops_at_gap(s, 0, s.len() - 1);
    assert(s.subrange(0, s.len() as int) =~= s);
}

} // verus!
