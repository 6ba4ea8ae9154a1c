use vstd::prelude::*;

use crate::activities::{
    unique_ids, ActivitiesStore, Activity, ActivityType, ActivityTypesStore,
};
use crate::date::{days_in_month, days_in_month_exec, Date};

verus! {

// Each store persists as text. A catalog entry is written as its id and the
// character count of its name, each as exactly twenty decimal digits, followed
// by the name itself; a completion record as four twenty-digit numbers: id,
// year, month, day. Records are concatenated; the fixed widths make the
// format self-delimiting.

pub open spec fn pow10(w: nat) -> nat
    decreases w,
{
    if w == 0 {
        1
    } else {
        10 * pow10((w - 1) as nat)
    }
}

pub open spec fn is_digit(c: char) -> bool {
    '0' <= c <= '9'
}

pub open spec fn digit_char(v: int) -> char {
    if v == 0 {
        '0'
    } else if v == 1 {
        '1'
    } else if v == 2 {
        '2'
    } else if v == 3 {
        '3'
    } else if v == 4 {
        '4'
    } else if v == 5 {
        '5'
    } else if v == 6 {
        '6'
    } else if v == 7 {
        '7'
    } else if v == 8 {
        '8'
    } else {
        '9'
    }
}

pub open spec fn digit_val(c: char) -> nat {
    if c == '0' {
        0
    } else if c == '1' {
        1
    } else if c == '2' {
        2
    } else if c == '3' {
        3
    } else if c == '4' {
        4
    } else if c == '5' {
        5
    } else if c == '6' {
        6
    } else if c == '7' {
        7
    } else if c == '8' {
        8
    } else {
        9
    }
}

pub open spec fn all_digits(s: Seq<char>) -> bool {
    forall|i: int| 0 <= i < s.len() ==> is_digit(#[trigger] s[i])
}

/// `n` written as exactly `w` decimal digits, most significant first.
pub open spec fn enc_nat(n: nat, w: nat) -> Seq<char>
    decreases w,
{
    if w == 0 {
        Seq::empty()
    } else {
        enc_nat(n / 10, (w - 1) as nat).push(digit_char((n % 10) as int))
    }
}

/// The number a digit string denotes.
pub open spec fn dec_nat(s: Seq<char>) -> nat
    decreases s.len(),
{
    if s.len() == 0 {
        0
    } else {
        dec_nat(s.drop_last()) * 10 + digit_val(s.last())
    }
}

pub proof fn lemma_enc_nat_len(n: nat, w: nat)
    ensures
        enc_nat(n, w).len() == w,
        all_digits(enc_nat(n, w)),
    decreases w,
{
    if w > 0 {
        lemma_enc_nat_len(n / 10, (w - 1) as nat);
        let e = enc_nat(n, w);
        assert(forall|i: int|
            0 <= i < w - 1 ==> e[i] == enc_nat(n / 10, (w - 1) as nat)[i]);
        assert(is_digit(e[w - 1]));
    }
}

/// Writing a number small enough for its width and reading it back returns it.
pub proof fn lemma_enc_dec_nat(n: nat, w: nat)
    requires
        n < pow10(w),
    ensures
        dec_nat(enc_nat(n, w)) == n,
    decreases w,
{
    if w == 0 {
    } else {
        let q = n / 10;
        let r = n % 10;
        assert(n == q * 10 + r) by {
            vstd::arithmetic::div_mod::lemma_fundamental_div_mod(n as int, 10);
        }
        assert(q < pow10((w - 1) as nat)) by {
            assert(n < 10 * pow10((w - 1) as nat));
        }
        lemma_enc_dec_nat(q, (w - 1) as nat);
        lemma_enc_nat_len(q, (w - 1) as nat);
        let e = enc_nat(n, w);
        assert(e.drop_last() =~= enc_nat(q, (w - 1) as nat));
        assert(digit_val(digit_char(r as int)) == r);
    }
}

pub proof fn lemma_pow10_20()
    ensures
        pow10(20) == 0x56bc75e2d63100000,
        u64::MAX < pow10(20),
{
    reveal_with_fuel(pow10, 21);
}

fn digit_char_exec(d: u8) -> (r: char)
    requires
        d < 10,
    ensures
        r == digit_char(d as int),
{
    match d {
        0 => '0',
        1 => '1',
        2 => '2',
        3 => '3',
        4 => '4',
        5 => '5',
        6 => '6',
        7 => '7',
        8 => '8',
        _ => '9',
    }
}

fn try_digit(c: char) -> (r: Option<u8>)
    ensures
        match r {
            Some(v) => is_digit(c) && v as nat == digit_val(c),
            None => !is_digit(c),
        },
{
    match c {
        '0' => Some(0),
        '1' => Some(1),
        '2' => Some(2),
        '3' => Some(3),
        '4' => Some(4),
        '5' => Some(5),
        '6' => Some(6),
        '7' => Some(7),
        '8' => Some(8),
        '9' => Some(9),
        _ => None,
    }
}

/// `n` as a fixed-width decimal digit string.
fn enc_fixed(n: u64, w: usize) -> (r: Vec<char>)
    ensures
        r@ == enc_nat(n as nat, w as nat),
    decreases w,
{
    if w == 0 {
        let r: Vec<char> = Vec::new();
        proof {
            assert(r@ =~= enc_nat(n as nat, 0));
        }
        r
    } else {
        let mut v = enc_fixed(n / 10, w - 1);
        v.push(digit_char_exec((n % 10) as u8));
        v
    }
}

/// Reads the fixed-width number at `start`; fails on a non-digit or a value
/// beyond `u64`.
fn dec_fixed(v: &Vec<char>, start: usize, w: usize) -> (r: Option<u64>)
    requires
        start + w <= v@.len(),
    ensures
        match r {
            Some(n) => all_digits(v@.subrange(start as int, start + w)) && n as nat == dec_nat(
                v@.subrange(start as int, start + w),
            ),
            None => !all_digits(v@.subrange(start as int, start + w)) || dec_nat(
                v@.subrange(start as int, start + w),
            ) > u64::MAX,
        },
    decreases w,
{
    let n = v.len();
    let ghost s = v@.subrange(start as int, start + w);
    if w == 0 {
        proof {
            assert(s =~= Seq::<char>::empty());
        }
        return Some(0);
    }
    proof {
        assert(s.drop_last() =~= v@.subrange(start as int, start + (w - 1)));
        assert(s.last() == v@[start + w - 1]);
        assert(forall|i: int| 0 <= i < w - 1 ==> s.drop_last()[i] == s[i]);
    }
    let head = match dec_fixed(v, start, w - 1) {
        Some(h) => h,
        None => {
            return None;
        },
    };
    let d = match try_digit(v[start + w - 1]) {
        Some(d) => d,
        None => {
            return None;
        },
    };
    let shifted = match head.checked_mul(10) {
        Some(x) => x,
        None => {
            return None;
        },
    };
    match shifted.checked_add(d as u64) {
        Some(x) => Some(x),
        None => None,
    }
}

/// Copies the characters in `[start, end)` out of `v`.
fn subvec(v: &Vec<char>, start: usize, end: usize) -> (r: Vec<char>)
    requires
        start <= end <= v@.len(),
    ensures
        r@ == v@.subrange(start as int, end as int),
{
    let mut r: Vec<char> = Vec::new();
    let mut i: usize = start;
    proof {
        assert(r@ =~= v@.subrange(start as int, start as int));
    }
    while i < end
        invariant
            start <= i <= end <= v@.len(),
            r@ == v@.subrange(start as int, i as int),
        decreases end - i,
    {
        proof {
            assert(v@.subrange(start as int, i + 1).drop_last() =~= v@.subrange(
                start as int,
                i as int,
            ));
            assert(v@.subrange(start as int, i + 1) =~= v@.subrange(start as int, i as int).push(
                v@[i as int],
            ));
        }
        r.push(v[i]);
        i = i + 1;
    }
    proof {
        assert(r@ =~= v@.subrange(start as int, end as int));
    }
    r
}

/// The characters of `s`, in order.
fn str_chars(s: &str) -> (r: Vec<char>)
    ensures
        r@ == s@,
{
    let n = s.unicode_len();
    let mut r: Vec<char> = Vec::new();
    let mut i: usize = 0;
    proof {
        assert(r@ =~= s@.subrange(0, 0));
    }
    while i < n
        invariant
            i <= n,
            n == s@.len(),
            r@ == s@.subrange(0, i as int),
        decreases n - i,
    {
        proof {
            assert(s@.subrange(0, i + 1) =~= s@.subrange(0, i as int).push(s@[i as int]));
        }
        r.push(s.get_char(i));
        i = i + 1;
    }
    proof {
        assert(s@.subrange(0, n as int) =~= s@);
    }
    r
}

/// Relies on String::push: it appends exactly the given character.
#[verifier::external_body]
fn string_push(s: &mut String, c: char)
    ensures
        final(s)@ == old(s)@.push(c),
{
    s.push(c)
}

/// A `String` holding exactly the given characters.
fn chars_to_string(v: &Vec<char>) -> (r: String)
    ensures
        r@ == v@,
{
    let mut r = String::new();
    let mut i: usize = 0;
    proof {
        assert(r@ =~= v@.subrange(0, 0));
    }
    while i < v.len()
        invariant
            i <= v@.len(),
            r@ == v@.subrange(0, i as int),
        decreases v@.len() - i,
    {
        proof {
            assert(v@.subrange(0, i + 1) =~= v@.subrange(0, i as int).push(v@[i as int]));
        }
        string_push(&mut r, v[i]);
        i = i + 1;
    }
    proof {
        assert(v@.subrange(0, v@.len() as int) =~= v@);
    }
    r
}

// ---- catalog ----

/// The catalog as plain values: id and name characters per entry.
pub open spec fn types_view(types: Seq<ActivityType>) -> Seq<(u64, Seq<char>)> {
    types.map_values(|t: ActivityType| (t.id, t.name@))
}

pub open spec fn unique_pair_ids(s: Seq<(u64, Seq<char>)>) -> bool {
    forall|i: int, j: int|
        0 <= i < s.len() && 0 <= j < s.len() && i != j ==> s[i].0 != s[j].0
}

pub open spec fn enc_type_rec(r: (u64, Seq<char>)) -> Seq<char> {
    enc_nat(r.0 as nat, 20) + enc_nat(r.1.len(), 20) + r.1
}

pub open spec fn enc_types(s: Seq<(u64, Seq<char>)>) -> Seq<char>
    decreases s.len(),
{
    if s.len() == 0 {
        Seq::empty()
    } else {
        enc_type_rec(s[0]) + enc_types(s.drop_first())
    }
}

pub open spec fn dec_types(s: Seq<char>) -> Option<Seq<(u64, Seq<char>)>>
    decreases s.len(),
{
    if s.len() == 0 {
        Some(Seq::empty())
    } else if s.len() < 40 {
        None
    } else {
        let idf = s.subrange(0, 20);
        let lenf = s.subrange(20, 40);
        if !(all_digits(idf) && all_digits(lenf)) {
            None
        } else if dec_nat(idf) > u64::MAX || dec_nat(lenf) > u64::MAX {
            None
        } else if s.len() - 40 < dec_nat(lenf) {
            None
        } else {
            let ln = dec_nat(lenf) as int;
            let name = s.subrange(40, 40 + ln);
            match dec_types(s.subrange(40 + ln, s.len() as int)) {
                Option::None => None,
                Option::Some(rest) => Some(
                    seq![(dec_nat(idf) as u64, name)] + rest,
                ),
            }
        }
    }
}

/// What decoding a catalog file yields: the records, provided the text
/// parses and the ids are unique.
pub open spec fn spec_decode_catalog(s: Seq<char>) -> Option<Seq<(u64, Seq<char>)>> {
    match dec_types(s) {
        Option::None => None,
        Option::Some(rs) => if unique_pair_ids(rs) {
            Some(rs)
        } else {
            None
        },
    }
}

/// Persisting the catalog and reading it back reproduces it exactly:
/// same ids and same names, in the same order.
pub proof fn lemma_catalog_round_trip(s: Seq<(u64, Seq<char>)>)
    requires
        unique_pair_ids(s),
        forall|i: int| 0 <= i < s.len() ==> (#[trigger] s[i]).1.len() <= u64::MAX,
    ensures
        spec_decode_catalog(enc_types(s)) == Some(s),
{
    lemma_dec_types_of_enc(s);
}

proof fn lemma_dec_types_of_enc(s: Seq<(u64, Seq<char>)>)
    requires
        forall|i: int| 0 <= i < s.len() ==> (#[trigger] s[i]).1.len() <= u64::MAX,
    ensures
        dec_types(enc_types(s)) == Some(s),
    decreases s.len(),
{
    lemma_pow10_20();
    if s.len() == 0 {
        assert(dec_types(enc_types(s)) == Some(Seq::<(u64, Seq<char>)>::empty()));
        assert(s =~= Seq::<(u64, Seq<char>)>::empty());
    } else {
        let r = s[0];
        let name = r.1;
        let ln = name.len();
        let e = enc_types(s);
        let rest = enc_types(s.drop_first());
        assert(e == enc_type_rec(r) + rest);
        lemma_enc_nat_len(r.0 as nat, 20);
        lemma_enc_nat_len(ln, 20);
        assert(e.len() == 40 + ln + rest.len());
        let idf = e.subrange(0, 20);
        let lenf = e.subrange(20, 40);
        assert(idf =~= enc_nat(r.0 as nat, 20));
        assert(lenf =~= enc_nat(ln, 20));
        lemma_enc_dec_nat(r.0 as nat, 20);
        lemma_enc_dec_nat(ln, 20);
        assert(e.subrange(40, 40 + ln as int) =~= name);
        assert(e.subrange(40 + ln as int, e.len() as int) =~= rest);
        assert(forall|i: int|
            0 <= i < s.drop_first().len() ==> (#[trigger] s.drop_first()[i]).1.len()
                <= u64::MAX);
        lemma_dec_types_of_enc(s.drop_first());
        let decoded = dec_types(e);
        assert(decoded == Some(seq![(r.0, name)] + s.drop_first()));
        assert(seq![(r.0, name)] + s.drop_first() =~= s);
    }
}

impl ActivityTypesStore {
    /// Serializes the full catalog for persistent storage.
    pub fn encode(&self) -> (r: Vec<char>)
        ensures
            r@ == enc_types(types_view(self@)),
    {
        proof {
            assert(types_view(self@).skip(0) =~= types_view(self@));
        }
        enc_types_from(&self.types, 0)
    }

    /// Rebuilds a catalog from persisted text; rejects anything that does
    /// not parse back to uniquely-numbered entries.
    pub fn decode(v: &Vec<char>) -> (r: Option<ActivityTypesStore>)
        ensures
            match r {
                Some(st) => spec_decode_catalog(v@) == Some(types_view(st@)) && st.wf(),
                None => spec_decode_catalog(v@) is None,
            },
    {
        proof {
            assert(v@.subrange(0, v@.len() as int) =~= v@);
        }
        let types = match dec_types_exec(v, 0) {
            Some(ts) => ts,
            None => {
                return None;
            },
        };
        if has_duplicate_id(&types) {
            proof {
                let (a, b) = choose|a: int, b: int|
                    0 <= a < types@.len() && 0 <= b < types@.len() && a != b && types@[a].id
                        == types@[b].id;
                assert(types_view(types@)[a].0 == types_view(types@)[b].0);
                assert(!unique_pair_ids(types_view(types@)));
            }
            return None;
        }
        proof {
            assert forall|a: int, b: int|
                0 <= a < types_view(types@).len() && 0 <= b < types_view(types@).len() && a
                    != b implies types_view(types@)[a].0 != types_view(types@)[b].0 by {
                assert(types@[a].id != types@[b].id);
            }
        }
        Some(ActivityTypesStore::from_types(types))
    }
}

fn enc_types_from(types: &Vec<ActivityType>, i: usize) -> (r: Vec<char>)
    requires
        i <= types@.len(),
    ensures
        r@ == enc_types(types_view(types@).skip(i as int)),
    decreases types@.len() - i,
{
    let ghost tail = types_view(types@).skip(i as int);
    if i == types.len() {
        let r: Vec<char> = Vec::new();
        proof {
            assert(tail =~= Seq::<(u64, Seq<char>)>::empty());
            assert(r@ =~= enc_types(tail));
        }
        r
    } else {
        let t = &types[i];
        let mut out = enc_fixed(t.id, 20);
        let name_chars = str_chars(t.name.as_str());
        let mut lenf = enc_fixed(name_chars.len() as u64, 20);
        out.append(&mut lenf);
        let mut name_chars = name_chars;
        out.append(&mut name_chars);
        let mut rest = enc_types_from(types, i + 1);
        out.append(&mut rest);
        proof {
            assert(tail[0] == (t.id, t.name@));
            assert(tail.drop_first() =~= types_view(types@).skip(i + 1));
            assert(out@ =~= enc_type_rec(tail[0]) + enc_types(tail.drop_first()));
        }
        out
    }
}

fn dec_types_exec(v: &Vec<char>, start: usize) -> (r: Option<Vec<ActivityType>>)
    requires
        start <= v@.len(),
    ensures
        match r {
            Some(ts) => dec_types(v@.subrange(start as int, v@.len() as int)) == Some(
                types_view(ts@),
            ),
            None => dec_types(v@.subrange(start as int, v@.len() as int)) is None,
        },
    decreases v@.len() - start,
{
    let ghost s = v@.subrange(start as int, v@.len() as int);
    let n = v.len();
    if start == n {
        let r: Vec<ActivityType> = Vec::new();
        proof {
            assert(s =~= Seq::<char>::empty());
            assert(types_view(r@) =~= Seq::<(u64, Seq<char>)>::empty());
        }
        return Some(r);
    }
    if n - start < 40 {
        return None;
    }
    proof {
        assert(s.subrange(0, 20) =~= v@.subrange(start as int, start + 20));
        assert(s.subrange(20, 40) =~= v@.subrange(start + 20, start + 40));
    }
    let id = match dec_fixed(v, start, 20) {
        Some(x) => x,
        None => {
            return None;
        },
    };
    let ln64 = match dec_fixed(v, start + 20, 20) {
        Some(x) => x,
        None => {
            return None;
        },
    };
    if ln64 > (n - start - 40) as u64 {
        return None;
    }
    let ln = ln64 as usize;
    let name_chars = subvec(v, start + 40, start + 40 + ln);
    let name = chars_to_string(&name_chars);
    proof {
        assert(s.subrange(40, 40 + ln as int) =~= v@.subrange(
            start + 40,
            start + 40 + ln as int,
        ));
        assert(s.subrange(40 + ln as int, s.len() as int) =~= v@.subrange(
            start + 40 + ln as int,
            v@.len() as int,
        ));
    }
    let rest = match dec_types_exec(v, start + 40 + ln) {
        Some(ts) => ts,
        None => {
            return None;
        },
    };
    let mut out: Vec<ActivityType> = Vec::new();
    out.push(ActivityType { id, name });
    let mut rest = rest;
    let ghost rest_snap = rest@;
    out.append(&mut rest);
    proof {
        assert(types_view(out@) =~= seq![(id, name_chars@)] + types_view(rest_snap));
    }
    Some(out)
}


/// Whether two catalog entries share an id.
fn has_duplicate_id(types: &Vec<ActivityType>) -> (r: bool)
    ensures
        r <==> !unique_ids(types@),
{
    let n = types.len();
    let mut i: usize = 0;
    while i < n
        invariant
            n == types@.len(),
            i <= n,
            forall|a: int, b: int| 0 <= a < i && a < b < n ==> types@[a].id != types@[b].id,
        decreases n - i,
    {
        let mut j: usize = i + 1;
        while j < n
            invariant
                n == types@.len(),
                i < n,
                i + 1 <= j <= n,
                forall|b: int| i < b < j ==> types@[i as int].id != types@[b].id,
            decreases n - j,
        {
            if types[j].id == types[i].id {
                return true;
            }
            j = j + 1;
        }
        i = i + 1;
    }
    proof {
        assert forall|a: int, b: int|
            0 <= a < n && 0 <= b < n && a != b implies types@[a].id != types@[b].id by {
            if a < b {
            } else {
            }
        }
    }
    false
}

/// Whether some completion record repeats.
fn has_duplicate_record(records: &Vec<Activity>) -> (r: bool)
    ensures
        r <==> !records@.no_duplicates(),
{
    let n = records.len();
    let mut i: usize = 0;
    while i < n
        invariant
            n == records@.len(),
            i <= n,
            forall|a: int, b: int| 0 <= a < i && a < b < n ==> records@[a] != records@[b],
        decreases n - i,
    {
        let mut j: usize = i + 1;
        while j < n
            invariant
                n == records@.len(),
                i < n,
                i + 1 <= j <= n,
                forall|b: int| i < b < j ==> records@[i as int] != records@[b],
            decreases n - j,
        {
            if records[j] == records[i] {
                proof {
                    assert(records@[i as int] == records@[j as int]);
                }
                return true;
            }
            j = j + 1;
        }
        i = i + 1;
    }
    proof {
        assert forall|a: int, b: int|
            0 <= a < n && 0 <= b < n && a != b implies records@[a] != records@[b] by {
            if a < b {
            } else {
            }
        }
    }
    false
}

// ---- completion log ----

pub open spec fn enc_act_rec(a: Activity) -> Seq<char> {
    enc_nat(a.activity_id as nat, 20) + enc_nat(a.date.year as nat, 20) + enc_nat(
        a.date.month as nat,
        20,
    ) + enc_nat(a.date.day as nat, 20)
}

pub open spec fn enc_acts(s: Seq<Activity>) -> Seq<char>
    decreases s.len(),
{
    if s.len() == 0 {
        Seq::empty()
    } else {
        enc_act_rec(s[0]) + enc_acts(s.drop_first())
    }
}

pub open spec fn dec_acts(s: Seq<char>) -> Option<Seq<Activity>>
    decreases s.len(),
{
    if s.len() == 0 {
        Some(Seq::empty())
    } else if s.len() < 80 {
        None
    } else {
        let idf = s.subrange(0, 20);
        let yf = s.subrange(20, 40);
        let mf = s.subrange(40, 60);
        let df = s.subrange(60, 80);
        if !(all_digits(idf) && all_digits(yf) && all_digits(mf) && all_digits(df)) {
            None
        } else if dec_nat(idf) > u64::MAX {
            None
        } else {
            let y = dec_nat(yf);
            let m = dec_nat(mf);
            let dd = dec_nat(df);
            if !(1 <= y <= 9999 && 1 <= m <= 12 && 1 <= dd && dd <= days_in_month(
                y as int,
                m as int,
            )) {
                None
            } else {
                let a = Activity {
                    activity_id: dec_nat(idf) as u64,
                    date: Date { year: y as u16, month: m as u8, day: dd as u8 },
                };
                match dec_acts(s.subrange(80, s.len() as int)) {
                    Option::None => None,
                    Option::Some(rest) => Some(seq![a] + rest),
                }
            }
        }
    }
}

/// What decoding a log file yields: the records, provided the text parses,
/// every date is a real calendar day, and no record repeats.
pub open spec fn spec_decode_log(s: Seq<char>) -> Option<Seq<Activity>> {
    match dec_acts(s) {
        Option::None => None,
        Option::Some(rs) => if rs.no_duplicates() {
            Some(rs)
        } else {
            None
        },
    }
}

/// Persisting the completion log and reading it back reproduces exactly the
/// same set of (activity, day) records, in the same order.
pub proof fn lemma_log_round_trip(s: Seq<Activity>)
    requires
        s.no_duplicates(),
        forall|i: int| 0 <= i < s.len() ==> (#[trigger] s[i]).date.valid(),
    ensures
        spec_decode_log(enc_acts(s)) == Some(s),
{
    lemma_dec_acts_of_enc(s);
}

proof fn lemma_dec_acts_of_enc(s: Seq<Activity>)
    requires
        forall|i: int| 0 <= i < s.len() ==> (#[trigger] s[i]).date.valid(),
    ensures
        dec_acts(enc_acts(s)) == Some(s),
    decreases s.len(),
{
    lemma_pow10_20();
    if s.len() == 0 {
        assert(s =~= Seq::<Activity>::empty());
    } else {
        let a = s[0];
        let e = enc_acts(s);
        let rest = enc_acts(s.drop_first());
        assert(e == enc_act_rec(a) + rest);
        lemma_enc_nat_len(a.activity_id as nat, 20);
        lemma_enc_nat_len(a.date.year as nat, 20);
        lemma_enc_nat_len(a.date.month as nat, 20);
        lemma_enc_nat_len(a.date.day as nat, 20);
        assert(e.len() == 80 + rest.len());
        assert(e.subrange(0, 20) =~= enc_nat(a.activity_id as nat, 20));
        assert(e.subrange(20, 40) =~= enc_nat(a.date.year as nat, 20));
        assert(e.subrange(40, 60) =~= enc_nat(a.date.month as nat, 20));
        assert(e.subrange(60, 80) =~= enc_nat(a.date.day as nat, 20));
        lemma_enc_dec_nat(a.activity_id as nat, 20);
        lemma_enc_dec_nat(a.date.year as nat, 20);
        lemma_enc_dec_nat(a.date.month as nat, 20);
        lemma_enc_dec_nat(a.date.day as nat, 20);
        assert(e.subrange(80, e.len() as int) =~= rest);
        assert(forall|i: int|
            0 <= i < s.drop_first().len() ==> (#[trigger] s.drop_first()[i]).date.valid());
        lemma_dec_acts_of_enc(s.drop_first());
        assert(dec_acts(e) == Some(seq![a] + s.drop_first()));
        assert(seq![a] + s.drop_first() =~= s);
    }
}

impl ActivitiesStore {
    /// Serializes the full completion set for persistent storage.
    pub fn encode(&self) -> (r: Vec<char>)
        ensures
            r@ == enc_acts(self@),
    {
        proof {
            assert(self@.skip(0) =~= self@);
        }
        enc_acts_from(&self.activities, 0)
    }

    /// Rebuilds a completion log from persisted text; rejects anything that
    /// does not parse back to distinct records on real calendar days.
    pub fn decode(v: &Vec<char>) -> (r: Option<ActivitiesStore>)
        ensures
            match r {
                Some(st) => spec_decode_log(v@) == Some(st@) && st.wf(),
                None => spec_decode_log(v@) is None,
            },
    {
        proof {
            assert(v@.subrange(0, v@.len() as int) =~= v@);
        }
        let records = match dec_acts_exec(v, 0) {
            Some(rs) => rs,
            None => {
                return None;
            },
        };
        if has_duplicate_record(&records) {
            return None;
        }
        Some(ActivitiesStore::from_records(records))
    }
}

fn enc_acts_from(records: &Vec<Activity>, i: usize) -> (r: Vec<char>)
    requires
        i <= records@.len(),
    ensures
        r@ == enc_acts(records@.skip(i as int)),
    decreases records@.len() - i,
{
    let ghost tail = records@.skip(i as int);
    if i == records.len() {
        let r: Vec<char> = Vec::new();
        proof {
            assert(tail =~= Seq::<Activity>::empty());
            assert(r@ =~= enc_acts(tail));
        }
        r
    } else {
        let a = records[i];
        let mut out = enc_fixed(a.activity_id, 20);
        let mut yf = enc_fixed(a.date.year as u64, 20);
        out.append(&mut yf);
        let mut mf = enc_fixed(a.date.month as u64, 20);
        out.append(&mut mf);
        let mut df = enc_fixed(a.date.day as u64, 20);
        out.append(&mut df);
        let mut rest = enc_acts_from(records, i + 1);
        out.append(&mut rest);
        proof {
            assert(tail[0] == a);
            assert(tail.drop_first() =~= records@.skip(i + 1));
            assert(out@ =~= enc_act_rec(tail[0]) + enc_acts(tail.drop_first()));
        }
        out
    }
}

fn dec_acts_exec(v: &Vec<char>, start: usize) -> (r: Option<Vec<Activity>>)
    requires
        start <= v@.len(),
    ensures
        match r {
            Some(rs) => dec_acts(v@.subrange(start as int, v@.len() as int)) == Some(rs@)
                && forall|i: int| 0 <= i < rs@.len() ==> (#[trigger] rs@[i]).date.valid(),
            None => dec_acts(v@.subrange(start as int, v@.len() as int)) is None,
        },
    decreases v@.len() - start,
{
    let ghost s = v@.subrange(start as int, v@.len() as int);
    let n = v.len();
    if start == n {
        let r: Vec<Activity> = Vec::new();
        proof {
            assert(s =~= Seq::<char>::empty());
            assert(r@ =~= Seq::<Activity>::empty());
        }
        return Some(r);
    }
    if n - start < 80 {
        return None;
    }
    proof {
        assert(s.subrange(0, 20) =~= v@.subrange(start as int, start + 20));
        assert(s.subrange(20, 40) =~= v@.subrange(start + 20, start + 40));
        assert(s.subrange(40, 60) =~= v@.subrange(start + 40, start + 60));
        assert(s.subrange(60, 80) =~= v@.subrange(start + 60, start + 80));
    }
    let id = match dec_fixed(v, start, 20) {
        Some(x) => x,
        None => {
            return None;
        },
    };
    let y = match dec_fixed(v, start + 20, 20) {
        Some(x) => x,
        None => {
            return None;
        },
    };
    let m = match dec_fixed(v, start + 40, 20) {
        Some(x) => x,
        None => {
            return None;
        },
    };
    let dd = match dec_fixed(v, start + 60, 20) {
        Some(x) => x,
        None => {
            return None;
        },
    };
    if !(1 <= y && y <= 9999 && 1 <= m && m <= 12 && 1 <= dd && dd <= 31) {
        return None;
    }
    if (dd as u8) > days_in_month_exec(y as u16, m as u8) {
        return None;
    }
    let a = Activity {
        activity_id: id,
        date: Date { year: y as u16, month: m as u8, day: dd as u8 },
    };
    proof {
        assert(s.subrange(80, s.len() as int) =~= v@.subrange(start + 80, v@.len() as int));
    }
    let rest = match dec_acts_exec(v, start + 80) {
        Some(rs) => rs,
        None => {
            return None;
        },
    };
    let mut out: Vec<Activity> = Vec::new();
    out.push(a);
    let mut rest = rest;
    let ghost rest_snap = rest@;
    out.append(&mut rest);
    proof {
        assert(out@ =~= seq![a] + rest_snap);
    }
    Some(out)
}

} // verus!
