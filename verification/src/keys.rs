//! The names under which tickets and their index entries are kept, and the
//! arrival pointer that a time-index entry carries.

use vstd::prelude::*;
use vstd::string::StringExecFns;
use vstd::string::StrSliceExecFns;
use crate::decimal::chars_of;
use crate::decimal::decimal;
use crate::decimal::lemma_decimal_has_no_underscore;
use crate::decimal::lemma_parse_decimal;
use crate::decimal::lemma_parse_i32_decimal;
use crate::decimal::parse_i32_between;
use crate::decimal::parse_i32_spec;
use crate::decimal::push_decimal;
use crate::error::StoreError;

verus! {

/// The key of the time index of one departure code.
pub open spec fn times_key_spec(departure_code: Seq<char>) -> Seq<char> {
    "times_"@ + departure_code
}

/// The key of a ticket's full record.
pub open spec fn record_key_spec(id: Seq<char>) -> Seq<char> {
    "ticket_"@ + id
}

/// A code and a time, joined by an underscore. This is both the key of a
/// departure pointer (arrival code, departure time) and the arrival pointer
/// held in the time index (arrival code, arrival time).
pub open spec fn code_and_time(code: Seq<char>, time: int) -> Seq<char> {
    code + "_"@ + decimal(time)
}

/// Two texts behind one prefix are the same where the whole is the same.
pub proof fn lemma_same_behind_prefix(prefix: Seq<char>, a: Seq<char>, b: Seq<char>)
    requires
        prefix + a == prefix + b,
    ensures
        a == b,
{
    assert((prefix + a).len() == prefix.len() + a.len());
    assert((prefix + b).len() == prefix.len() + b.len());
    assert forall|i: int| 0 <= i < a.len() implies a[i] == b[i] by {
        assert(a[i] == (prefix + a)[prefix.len() + i]);
        assert(b[i] == (prefix + b)[prefix.len() + i]);
    }
    assert(a =~= b);
}

/// Different departure codes have different time indices.
pub proof fn lemma_times_key_injective(a: Seq<char>, b: Seq<char>)
    ensures
        times_key_spec(a) == times_key_spec(b) <==> a == b,
{
    if times_key_spec(a) == times_key_spec(b) {
        lemma_same_behind_prefix("times_"@, a, b);
    }
}

/// Different ids have different records.
pub proof fn lemma_record_key_injective(a: Seq<char>, b: Seq<char>)
    ensures
        record_key_spec(a) == record_key_spec(b) <==> a == b,
{
    if record_key_spec(a) == record_key_spec(b) {
        lemma_same_behind_prefix("ticket_"@, a, b);
    }
}

/// A code and a time are joined to the same text only where they are the
/// same code and the same time: the text's last underscore is the joint.
pub proof fn lemma_code_and_time_injective(a: Seq<char>, at: int, b: Seq<char>, bt: int)
    ensures
        code_and_time(a, at) == code_and_time(b, bt) <==> a == b && at == bt,
{
    if code_and_time(a, at) == code_and_time(b, bt) {
        reveal_strlit("_");
        let s = code_and_time(a, at);
        let t = code_and_time(b, bt);
        lemma_decimal_has_no_underscore(at);
        lemma_decimal_has_no_underscore(bt);
        assert("_"@.len() == 1);
        assert((a + "_"@).len() == a.len() + 1);
        assert((b + "_"@).len() == b.len() + 1);
        assert(s.len() == a.len() + 1 + decimal(at).len());
        assert(t.len() == b.len() + 1 + decimal(bt).len());
        assert(s[a.len() as int] == '_');
        assert(t[b.len() as int] == '_');
        if a.len() < b.len() {
            assert(s[b.len() as int] == decimal(at)[b.len() - a.len() - 1]);
        }
        if b.len() < a.len() {
            assert(t[a.len() as int] == decimal(bt)[a.len() - b.len() - 1]);
        }
        assert(a =~= s.take(a.len() as int));
        assert(b =~= t.take(b.len() as int));
        assert(decimal(at) =~= s.skip(a.len() as int + 1));
        assert(decimal(bt) =~= t.skip(b.len() as int + 1));
        lemma_parse_decimal(at);
        lemma_parse_decimal(bt);
    }
}

/// The key of the time index of `departure_code`.
pub fn times_key(departure_code: &str) -> (key: String)
    ensures
        key@ == times_key_spec(departure_code@),
{
    String::from_str("times_").concat(departure_code)
}

/// The key of the record of the ticket `id`.
pub fn record_key(id: &str) -> (key: String)
    ensures
        key@ == record_key_spec(id@),
{
    String::from_str("ticket_").concat(id)
}

/// The key under which the id of the ticket that leaves for `arrival_code`
/// at `departure_time` is kept.
pub fn pointer_key(arrival_code: &str, departure_time: i32) -> (key: String)
    ensures
        key@ == code_and_time(arrival_code@, departure_time as int),
{
    let mut key = String::from_str(arrival_code).concat("_");
    push_decimal(&mut key, departure_time);
    key
}

/// The member that a ticket contributes to the time index of its departure
/// code: where it arrives, and when.
pub fn arrival_pointer(arrival_code: &str, arrival_time: i32) -> (pointer: String)
    ensures
        pointer@ == code_and_time(arrival_code@, arrival_time as int),
{
    pointer_key(arrival_code, arrival_time)
}

/// What an arrival pointer says: the stop reached and the time of arrival.
pub struct ArrivalData {
    pub arrival_code: String,
    pub arrival_time: i32,
}

pub struct ArrivalDataView {
    pub arrival_code: Seq<char>,
    pub arrival_time: int,
}

impl View for ArrivalData {
    type V = ArrivalDataView;

    open spec fn view(&self) -> ArrivalDataView {
        ArrivalDataView { arrival_code: self.arrival_code@, arrival_time: self.arrival_time as int }
    }
}

/// The place of the first underscore of `s` at or after `from`, or the
/// length of `s` where there is none.
pub open spec fn underscore_from(s: Seq<char>, from: int) -> int
    decreases s.len() - from,
{
    if from < 0 || from >= s.len() {
        s.len() as int
    } else if s[from] == '_' {
        from
    } else {
        underscore_from(s, from + 1)
    }
}

/// An arrival pointer is read by its underscores: what stands before the
/// first is the code, what stands between the first and the second (or the
/// end) is the time. A pointer without an underscore, or whose time is no
/// `i32`, is malformed.
pub open spec fn arrival_data_spec(pointer: Seq<char>) -> Result<ArrivalDataView, StoreError> {
    let first = underscore_from(pointer, 0);
    if first >= pointer.len() {
        Err(StoreError::InvalidInput)
    } else {
        let second = underscore_from(pointer, first + 1);
        match parse_i32_spec(pointer.subrange(first + 1, second)) {
            Some(time) => Ok(
                ArrivalDataView { arrival_code: pointer.take(first), arrival_time: time as int },
            ),
            None => Err(StoreError::InvalidInput),
        }
    }
}

/// The first underscore at or after `from` is at `at` when no underscore
/// stands between the two and one stands at `at` (or `at` is the end).
pub proof fn lemma_underscore_at(s: Seq<char>, from: int, at: int)
    requires
        0 <= from <= at <= s.len(),
        forall|i: int| from <= i < at ==> s[i] != '_',
        at < s.len() ==> s[at] == '_',
    ensures
        underscore_from(s, from) == at,
    decreases at - from,
{
    if from < at {
        lemma_underscore_at(s, from + 1, at);
    }
}

/// The place of the first underscore at or after `from`.
fn find_underscore(v: &Vec<char>, from: usize) -> (at: usize)
    requires
        from <= v.len(),
    ensures
        at == underscore_from(v@, from as int),
        from <= at <= v.len(),
{
    let mut i: usize = from;
    while i < v.len() && v[i] != '_'
        invariant
            from <= i <= v.len(),
            forall|k: int| from <= k < i ==> v@[k] != '_',
        decreases v.len() - i,
    {
        i = i + 1;
    }
    proof {
        lemma_underscore_at(v@, from as int, i as int);
    }
    i
}

/// Reads an arrival pointer.
pub fn get_arrival_data(arrival_data_string: &str) -> (r: Result<ArrivalData, StoreError>)
    ensures
        match r {
            Ok(data) => arrival_data_spec(arrival_data_string@) == Ok::<
                ArrivalDataView,
                StoreError,
            >(data@),
            Err(e) => arrival_data_spec(arrival_data_string@) == Err::<ArrivalDataView, StoreError>(
                e,
            ),
        },
{
    let v = chars_of(arrival_data_string);
    let first = find_underscore(&v, 0);
    if first >= v.len() {
        return Err(StoreError::InvalidInput);
    }
    let second = find_underscore(&v, first + 1);
    match parse_i32_between(&v, first + 1, second) {
        Some(time) => {
            let code = String::from_str(arrival_data_string.substring_char(0, first));
            Ok(ArrivalData { arrival_code: code, arrival_time: time })
        },
        None => Err(StoreError::InvalidInput),
    }
}

/// A pointer made from a code without an underscore reads back as that code
/// and that time.
pub proof fn lemma_arrival_data_of_pointer(code: Seq<char>, time: i32)
    requires
        !code.contains('_'),
    ensures
        arrival_data_spec(code_and_time(code, time as int)) == Ok::<ArrivalDataView, StoreError>(
            ArrivalDataView { arrival_code: code, arrival_time: time as int },
        ),
{
    reveal_strlit("_");
    let s = code_and_time(code, time as int);
    let n = code.len() as int;
    lemma_decimal_has_no_underscore(time as int);
    lemma_parse_i32_decimal(time);
    assert(s[n] == '_');
    assert forall|i: int| 0 <= i < n implies s[i] != '_' by {
        assert(s[i] == code[i]);
    }
    lemma_underscore_at(s, 0, n);
    assert forall|i: int| n + 1 <= i < s.len() implies s[i] != '_' by {
        assert(s[i] == decimal(time as int)[i - n - 1]);
    }
    lemma_underscore_at(s, n + 1, s.len() as int);
    assert(s.subrange(n + 1, s.len() as int) =~= decimal(time as int));
    assert(s.take(n) =~= code);
}

} // verus!
