//! Target task records and the canonical text form of task identities.
use vstd::prelude::*;

use crate::time::Timestamp;

verus! {

/// State of a target task.
#[derive(Clone, Copy, Debug, PartialEq, Eq, Structural)]
pub enum Status {
    Pending,
    Deleted,
    Completed,
    Waiting,
    Recurring,
}

/// Priority of a target task.
#[derive(Clone, Copy, Debug, PartialEq, Eq, Structural)]
pub enum Priority {
    High,
    Medium,
    Low,
}

/// A target task record.
#[derive(Clone, Debug)]
pub struct Task {
    pub status: Status,
    pub uuid: UUID,
    pub entry: Timestamp,
    pub description: String,
    pub start: Option<Timestamp>,
    pub end: Option<Timestamp>,
    pub due: Option<Timestamp>,
    pub until: Option<Timestamp>,
    pub wait: Option<Timestamp>,
    pub modified: Option<Timestamp>,
    pub scheduled: Option<Timestamp>,
    pub recur: Option<String>,
    pub mask: Option<String>,
    pub imask: Option<u64>,
    pub parent: Option<UUID>,
    pub project: Option<String>,
    pub priority: Option<Priority>,
    pub depends: Option<String>,
    pub tags: Option<Vec<String>>,
    pub annotation: Option<Vec<String>>,
}

/// A target task record with its texts as character sequences.
pub struct TaskView {
    pub status: Status,
    pub uuid: u128,
    pub entry: Timestamp,
    pub description: Seq<char>,
    pub start: Option<Timestamp>,
    pub end: Option<Timestamp>,
    pub due: Option<Timestamp>,
    pub until: Option<Timestamp>,
    pub wait: Option<Timestamp>,
    pub modified: Option<Timestamp>,
    pub scheduled: Option<Timestamp>,
    pub recur: Option<Seq<char>>,
    pub mask: Option<Seq<char>>,
    pub imask: Option<u64>,
    pub parent: Option<u128>,
    pub project: Option<Seq<char>>,
    pub priority: Option<Priority>,
    pub depends: Option<Seq<char>>,
    pub tags: Option<Seq<Seq<char>>>,
    pub annotation: Option<Seq<Seq<char>>>,
}

/// Characters of an optional text.
pub open spec fn opt_text(s: Option<String>) -> Option<Seq<char>> {
    match s {
        Some(t) => Some(t@),
        None => None,
    }
}

/// Characters of each text of a list.
pub open spec fn texts(v: Seq<String>) -> Seq<Seq<char>> {
    v.map_values(|s: String| s@)
}

/// Characters of each text of an optional list.
pub open spec fn opt_texts(v: Option<Vec<String>>) -> Option<Seq<Seq<char>>> {
    match v {
        Some(l) => Some(texts(l@)),
        None => None,
    }
}

impl View for Task {
    type V = TaskView;

    open spec fn view(&self) -> TaskView {
        TaskView {
            status: self.status,
            uuid: self.uuid.uuid,
            entry: self.entry,
            description: self.description@,
            start: self.start,
            end: self.end,
            due: self.due,
            until: self.until,
            wait: self.wait,
            modified: self.modified,
            scheduled: self.scheduled,
            recur: opt_text(self.recur),
            mask: opt_text(self.mask),
            imask: self.imask,
            parent: match self.parent {
                Some(p) => Some(p.uuid),
                None => None,
            },
            project: opt_text(self.project),
            priority: self.priority,
            depends: opt_text(self.depends),
            tags: opt_texts(self.tags),
            annotation: opt_texts(self.annotation),
        }
    }
}

/// A 128-bit task identity.
#[derive(Clone, Copy, Debug, PartialEq, Eq, Structural)]
pub struct UUID {
    pub uuid: u128,
}

/// The text handed to `UUID::decode` is not of the canonical form.
#[derive(Clone, Copy, Debug, PartialEq, Eq, Structural)]
pub enum FormatError {
    Malformed,
}

/// Number of characters of the canonical text form.
pub const UUID_TEXT_LEN: usize = 36;

/// Whether position `i` of the canonical text holds a hyphen.
pub open spec fn is_hyphen_pos(i: int) -> bool {
    i == 8 || i == 13 || i == 18 || i == 23
}

/// Index, among the 32 hex digits, of the digit at text position `i`.
pub open spec fn digit_index(i: int) -> int {
    if i < 8 {
        i
    } else if i < 13 {
        i - 1
    } else if i < 18 {
        i - 2
    } else if i < 23 {
        i - 3
    } else {
        i - 4
    }
}

/// Text position of hex digit number `k`.
pub open spec fn digit_pos(k: int) -> int {
    if k < 8 {
        k
    } else if k < 12 {
        k + 1
    } else if k < 16 {
        k + 2
    } else if k < 20 {
        k + 3
    } else {
        k + 4
    }
}

/// The `k`-th 4-bit group of `v`, counted from the most significant one.
pub open spec fn nibble(v: u128, k: int) -> u128 {
    (v >> ((4 * (31 - k)) as u128)) & 15u128
}

/// Upper-case hexadecimal digit of `n < 16`.
pub open spec fn hex_digit(n: u128) -> char {
    if n == 0 { '0' } else if n == 1 { '1' } else if n == 2 { '2' } else if n == 3 { '3' }
    else if n == 4 { '4' } else if n == 5 { '5' } else if n == 6 { '6' } else if n == 7 { '7' }
    else if n == 8 { '8' } else if n == 9 { '9' } else if n == 10 { 'A' } else if n == 11 { 'B' }
    else if n == 12 { 'C' } else if n == 13 { 'D' } else if n == 14 { 'E' } else { 'F' }
}

/// The sixteen upper-case hexadecimal digits in order.
pub open spec fn hex_table() -> Seq<char> {
    seq!['0', '1', '2', '3', '4', '5', '6', '7', '8', '9', 'A', 'B', 'C', 'D', 'E', 'F']
}

/// Value of a hexadecimal digit of either case.
pub open spec fn hex_value(c: char) -> Option<u128> {
    let n = c as u32;
    if 48 <= n <= 57 {
        Some((n - 48) as u128)
    } else if 65 <= n <= 70 {
        Some((n - 55) as u128)
    } else if 97 <= n <= 102 {
        Some((n - 87) as u128)
    } else {
        None
    }
}

/// Canonical text of an identity: `XXXXXXXX-XXXX-XXXX-XXXX-XXXXXXXXXXXX`,
/// upper-case hex digits, most significant first.
pub open spec fn encode_spec(v: u128) -> Seq<char> {
    Seq::new(
        36,
        |i: int|
            if is_hyphen_pos(i) {
                '-'
            } else {
                hex_digit(nibble(v, digit_index(i)))
            },
    )
}

/// Whether `s` has the canonical grouping, with digits of either case.
pub open spec fn well_formed_text(s: Seq<char>) -> bool {
    &&& s.len() == 36
    &&& forall|i: int|
        0 <= i < 36 ==> if is_hyphen_pos(i) {
            #[trigger] s[i] == '-'
        } else {
            hex_value(s[i]) is Some
        }
}

/// Value of the first `j` hex digits of `s`.
pub open spec fn digits_value(s: Seq<char>, j: int) -> u128
    decreases j,
{
    if j <= 0 {
        0
    } else {
        let d = match hex_value(s[digit_pos(j - 1)]) {
            Some(d) => d,
            None => 0,
        };
        (digits_value(s, j - 1) << 4u128) | d
    }
}

/// Identity denoted by `s`, if `s` is well formed.
pub open spec fn decode_spec(s: Seq<char>) -> Option<u128> {
    if well_formed_text(s) {
        Some(digits_value(s, 32))
    } else {
        None
    }
}

impl UUID {
    pub fn new(uuid: u128) -> (r: UUID)
        ensures
            r.uuid == uuid,
    {
        UUID { uuid }
    }

    /// Canonical text of the identity.
    pub fn encode(&self) -> (r: String)
        ensures
            r@ == encode_spec(self.uuid),
    {
        let digits = "0123456789ABCDEF";
        proof {
            reveal_strlit("0123456789ABCDEF");
            reveal_strlit("-");
            assert(digits@ =~= hex_table());
        }
        let mut out = String::new();
        let mut i: usize = 0;
        while i < UUID_TEXT_LEN
            invariant
                0 <= i <= 36,
                digits@ == hex_table(),
                out@ == encode_spec(self.uuid).take(i as int),
            decreases 36 - i,
        {
            if i == 8 || i == 13 || i == 18 || i == 23 {
                proof {
                    reveal_strlit("-");
                }
                out.append("-");
            } else {
                let k: usize = if i < 8 {
                    i
                } else if i < 13 {
                    i - 1
                } else if i < 18 {
                    i - 2
                } else if i < 23 {
                    i - 3
                } else {
                    i - 4
                };
                let shift: u128 = 4 * (31 - k as u128);
                let v: u128 = self.uuid;
                let n: u128 = (v >> shift) & 15u128;
                assert(n < 16) by (bit_vector)
                    requires n == (v >> shift) & 15u128;
                let d = digits.substring_char(n as usize, n as usize + 1);
                assert(k as int == digit_index(i as int));
                assert(n == nibble(self.uuid, k as int));
                assert(hex_table()[n as int] == hex_digit(n));
                assert(d@ =~= seq![hex_digit(n)]);
                out.append(d);
            }
            assert(out@ =~= encode_spec(self.uuid).take(i + 1));
            i = i + 1;
        }
        assert(out@ =~= encode_spec(self.uuid));
        out
    }

    /// Identity denoted by canonical text; digits of either case are accepted.
    pub fn decode(s: &str) -> (r: Result<UUID, FormatError>)
        ensures
            match decode_spec(s@) {
                Some(v) => r == Ok::<UUID, FormatError>(UUID { uuid: v }),
                None => r == Err::<UUID, FormatError>(FormatError::Malformed),
            },
    {
        if s.unicode_len() != UUID_TEXT_LEN {
            return Err(FormatError::Malformed);
        }
        if s.get_char(8) != '-' || s.get_char(13) != '-' || s.get_char(18) != '-'
            || s.get_char(23) != '-' {
            return Err(FormatError::Malformed);
        }
        let mut acc: u128 = 0;
        let mut k: usize = 0;
        while k < 32
            invariant
                0 <= k <= 32,
                s@.len() == 36,
                s@[8] == '-' && s@[13] == '-' && s@[18] == '-' && s@[23] == '-',
                forall|j: int| 0 <= j < k ==> (#[trigger] hex_value(s@[digit_pos(j)])) is Some,
                acc == digits_value(s@, k as int),
            decreases 32 - k,
        {
            let pos: usize = if k < 8 {
                k
            } else if k < 12 {
                k + 1
            } else if k < 16 {
                k + 2
            } else if k < 20 {
                k + 3
            } else {
                k + 4
            };
            let c = s.get_char(pos);
            let d: u128 = match hex_digit_value(c) {
                Some(d) => d,
                None => {
                    assert(!well_formed_text(s@)) by {
                        assert(!is_hyphen_pos(pos as int));
                        assert(hex_value(s@[pos as int]) is None);
                    }
                    return Err(FormatError::Malformed);
                },
            };
            acc = (acc << 4u128) | d;
            k = k + 1;
        }
        assert(well_formed_text(s@)) by {
            assert forall|i: int| 0 <= i < 36 && !is_hyphen_pos(i) implies
                (#[trigger] hex_value(s@[i])) is Some by {
                assert(digit_pos(digit_index(i)) == i);
                assert(hex_value(s@[digit_pos(digit_index(i))]) is Some);
            }
        }
        Ok(UUID { uuid: acc })
    }
}

/// Value of a hexadecimal digit of either case.
fn hex_digit_value(c: char) -> (r: Option<u128>)
    ensures
        r == hex_value(c),
{
    let n = c as u32;
    if 48 <= n && n <= 57 {
        Some((n - 48) as u128)
    } else if 65 <= n && n <= 70 {
        Some((n - 55) as u128)
    } else if 97 <= n && n <= 102 {
        Some((n - 87) as u128)
    } else {
        None
    }
}

proof fn lemma_rebuild_prefix(v: u128, t: u128)
    requires
        t <= 124,
    ensures
        (((v >> (t + 4)) << 4u128) | ((v >> t) & 15u128)) == v >> t,
{
    assert((((v >> (t + 4)) << 4u128) | ((v >> t) & 15u128)) == v >> t) by (bit_vector)
        requires
            t <= 124,
    ;
}

proof fn lemma_hex_digit_value(n: u128)
    requires
        n < 16,
    ensures
        hex_value(hex_digit(n)) == Some(n),
{
}

proof fn lemma_digits_of_encoding(v: u128, j: int)
    requires
        0 <= j <= 32,
    ensures
        digits_value(encode_spec(v), j) == v >> ((4 * (32 - j)) as u128),
    decreases j,
{
    let s = encode_spec(v);
    if j == 0 {
        assert(v >> 128u128 == 0) by (bit_vector);
    } else {
        lemma_digits_of_encoding(v, j - 1);
        let k = j - 1;
        let t = (4 * (32 - j)) as u128;
        assert(digit_index(digit_pos(k)) == k && !is_hyphen_pos(digit_pos(k)));
        assert(s[digit_pos(k)] == hex_digit(nibble(v, k)));
        assert(nibble(v, k) < 16) by {
            let x = v >> t;
            assert(x & 15u128 < 16) by (bit_vector);
        }
        lemma_hex_digit_value(nibble(v, k));
        assert((4 * (32 - (j - 1))) as u128 == t + 4);
        lemma_rebuild_prefix(v, t);
    }
}

/// Decoding the canonical text of any identity gives that identity back, and
/// the canonical text always has 36 characters in the hyphen grouping.
pub proof fn lemma_codec_round_trip(v: u128)
    ensures
        decode_spec(encode_spec(v)) == Some(v),
        encode_spec(v).len() == 36,
        forall|i: int| 0 <= i < 36 ==> (is_hyphen_pos(i) <==> #[trigger] encode_spec(v)[i] == '-'),
{
    let s = encode_spec(v);
    assert forall|i: int| 0 <= i < 36 implies if is_hyphen_pos(i) {
        s[i] == '-'
    } else {
        (#[trigger] hex_value(s[i])) is Some
    } by {
        if !is_hyphen_pos(i) {
            let t = (4 * (31 - digit_index(i))) as u128;
            assert(nibble(v, digit_index(i)) < 16) by {
                let x = v >> t;
                assert(x & 15u128 < 16) by (bit_vector);
            }
            lemma_hex_digit_value(nibble(v, digit_index(i)));
        }
    }
    assert forall|i: int| 0 <= i < 36 implies (is_hyphen_pos(i) <==> #[trigger] s[i] == '-') by {
        if !is_hyphen_pos(i) {
            let t = (4 * (31 - digit_index(i))) as u128;
            assert(nibble(v, digit_index(i)) < 16) by {
                let x = v >> t;
                assert(x & 15u128 < 16) by (bit_vector);
            }
        }
    }
    lemma_digits_of_encoding(v, 32);
    assert(v >> 0u128 == v) by (bit_vector);
}

} // verus!

verus! {

/// Whether `t` is strictly increasing.
pub open spec fn strictly_sorted(t: Seq<u128>) -> bool {
    forall|i: int, j: int| 0 <= i < j < t.len() ==> t[i] < t[j]
}

/// The elements of a finite set of identities in increasing order.
pub open spec fn ascending(s: Set<u128>) -> Seq<u128> {
    choose|t: Seq<u128>| strictly_sorted(t) && t.to_set() == s
}

/// Canonical texts of `t`, joined by single commas.
pub open spec fn join_encoded(t: Seq<u128>) -> Seq<char>
    decreases t.len(),
{
    if t.len() == 0 {
        Seq::empty()
    } else if t.len() == 1 {
        encode_spec(t[0])
    } else {
        join_encoded(t.drop_last()) + seq![','] + encode_spec(t.last())
    }
}

/// Text of a dependency set: the canonical texts of its identities, in
/// increasing order, joined by commas.
pub open spec fn depends_text(s: Set<u128>) -> Seq<char> {
    join_encoded(ascending(s))
}

/// Values of a sequence of identities.
pub open spec fn uuid_values(u: Seq<UUID>) -> Seq<u128> {
    u.map_values(|x: UUID| x.uuid)
}

proof fn lemma_sorted_unique(a: Seq<u128>, b: Seq<u128>)
    requires
        strictly_sorted(a),
        strictly_sorted(b),
        a.to_set() == b.to_set(),
    ensures
        a == b,
    decreases a.len(),
{
    if a.len() == 0 {
        if b.len() > 0 {
            assert(a.to_set().contains(b[0]));
        }
        assert(a =~= b);
    } else {
        assert(b.to_set().contains(a[0]));
        assert(b.len() > 0);
        assert(a.to_set().contains(b[0]));
        let i = choose|i: int| 0 <= i < a.len() && a[i] == b[0];
        let j = choose|j: int| 0 <= j < b.len() && b[j] == a[0];
        assert(a[0] == b[0]) by {
            if a[0] != b[0] {
                assert(i > 0 && j > 0);
                assert(a[0] < a[i]);
                assert(b[0] < b[j]);
            }
        }
        let a1 = a.drop_first();
        let b1 = b.drop_first();
        assert forall|x: u128| a1.to_set().contains(x) implies b1.to_set().contains(x) by {
            let p = choose|p: int| 0 <= p < a1.len() && a1[p] == x;
            assert(a[p + 1] == x && a[0] < x);
            assert(b.to_set().contains(x));
            let q = choose|q: int| 0 <= q < b.len() && b[q] == x;
            assert(q != 0);
            assert(b1[q - 1] == x);
        }
        assert forall|x: u128| b1.to_set().contains(x) implies a1.to_set().contains(x) by {
            let p = choose|p: int| 0 <= p < b1.len() && b1[p] == x;
            assert(b[p + 1] == x && b[0] < x);
            assert(a.to_set().contains(x));
            let q = choose|q: int| 0 <= q < a.len() && a[q] == x;
            assert(q != 0);
            assert(a1[q - 1] == x);
        }
        assert(a1.to_set() =~= b1.to_set());
        lemma_sorted_unique(a1, b1);
        assert(a =~= b) by {
            assert(a =~= seq![a[0]] + a1);
            assert(b =~= seq![b[0]] + b1);
        }
    }
}

/// The sorted listing of a set is the only strictly increasing sequence with
/// its elements.
pub proof fn lemma_ascending_is(t: Seq<u128>)
    requires
        strictly_sorted(t),
    ensures
        ascending(t.to_set()) == t,
{
    let s = t.to_set();
    let a = ascending(s);
    assert(strictly_sorted(a) && a.to_set() == s);
    lemma_sorted_unique(a, t);
}

/// The dependency text depends only on the set of identities given, not on
/// their order or repetitions.
pub proof fn lemma_depends_text_order_free(a: Seq<UUID>, b: Seq<UUID>)
    requires
        uuid_values(a).to_set() == uuid_values(b).to_set(),
    ensures
        depends_text(uuid_values(a).to_set()) == depends_text(uuid_values(b).to_set()),
{
}

/// Insert `x` into the strictly increasing `t`, unless it is already there.
fn insert_sorted(t: &mut Vec<u128>, x: u128)
    requires
        strictly_sorted(old(t)@),
    ensures
        strictly_sorted(final(t)@),
        final(t)@.to_set() == old(t)@.to_set().insert(x),
{
    let mut p: usize = 0;
    while p < t.len() && t[p] < x
        invariant
            0 <= p <= t@.len(),
            t@ == old(t)@,
            forall|j: int| 0 <= j < p ==> t@[j] < x,
        decreases t@.len() - p,
    {
        p = p + 1;
    }
    if p < t.len() && t[p] == x {
        assert(t@.to_set().insert(x) =~= t@.to_set()) by {
            assert(t@.to_set().contains(x));
        }
        return;
    }
    let ghost before = t@;
    t.insert(p, x);
    assert(strictly_sorted(t@)) by {
        assert forall|i: int, j: int| 0 <= i < j < t@.len() implies t@[i] < t@[j] by {
            if j < p {
            } else if j == p {
            } else if i < p {
                assert(before[j - 1] > x || before[j - 1] >= before[p as int]);
            } else if i == p {
                assert(before[j - 1] >= before[p as int]);
            } else {
            }
        }
    }
    assert forall|y: u128| t@.to_set().contains(y) <==> before.to_set().insert(x).contains(y) by {
        if t@.to_set().contains(y) {
            let q = choose|q: int| 0 <= q < t@.len() && t@[q] == y;
            if q < p {
                assert(before[q] == y);
            } else if q > p {
                assert(before[q - 1] == y);
            }
        }
        if before.to_set().contains(y) {
            let q = choose|q: int| 0 <= q < before.len() && before[q] == y;
            if q < p {
                assert(t@[q] == y);
            } else {
                assert(t@[q + 1] == y);
            }
        }
        if y == x {
            assert(t@[p as int] == x);
        }
    }
    assert(t@.to_set() =~= before.to_set().insert(x));
}

/// Comma-joined canonical texts of a set of identities, in increasing order;
/// each identity appears once however often it is given.
pub fn get_depends_fields(uuids: Vec<UUID>) -> (r: String)
    ensures
        r@ == depends_text(uuid_values(uuids@).to_set()),
{
    let mut t: Vec<u128> = Vec::new();
    let mut i: usize = 0;
    while i < uuids.len()
        invariant
            0 <= i <= uuids@.len(),
            strictly_sorted(t@),
            t@.to_set() == uuid_values(uuids@.take(i as int)).to_set(),
        decreases uuids@.len() - i,
    {
        insert_sorted(&mut t, uuids[i].uuid);
        assert(uuid_values(uuids@.take(i + 1)) =~= uuid_values(uuids@.take(i as int)).push(
            uuids@[i as int].uuid,
        ));
        assert(uuid_values(uuids@.take(i + 1)).to_set() =~= uuid_values(
            uuids@.take(i as int),
        ).to_set().insert(uuids@[i as int].uuid)) by {
            let s0 = uuid_values(uuids@.take(i as int));
            let s1 = uuid_values(uuids@.take(i + 1));
            assert forall|y: u128| s1.to_set().contains(y) <==> s0.to_set().insert(
                uuids@[i as int].uuid,
            ).contains(y) by {
                if s1.to_set().contains(y) {
                    let q = choose|q: int| 0 <= q < s1.len() && s1[q] == y;
                    if q < i {
                        assert(s0[q] == y);
                    }
                }
                if s0.to_set().contains(y) {
                    let q = choose|q: int| 0 <= q < s0.len() && s0[q] == y;
                    assert(s1[q] == y);
                }
                if y == uuids@[i as int].uuid {
                    assert(s1[i as int] == y);
                }
            }
        }
        i = i + 1;
    }
    assert(uuids@.take(uuids@.len() as int) =~= uuids@);
    let mut out = String::new();
    let mut j: usize = 0;
    while j < t.len()
        invariant
            0 <= j <= t@.len(),
            out@ == join_encoded(t@.take(j as int)),
        decreases t@.len() - j,
    {
        if j > 0 {
            proof {
                reveal_strlit(",");
            }
            out.append(",");
        }
        let text = UUID { uuid: t[j] }.encode();
        out.append(text.as_str());
        assert(t@.take(j + 1).drop_last() =~= t@.take(j as int));
        j = j + 1;
    }
    assert(t@.take(t@.len() as int) =~= t@);
    proof {
        lemma_ascending_is(t@);
    }
    out
}

} // verus!
