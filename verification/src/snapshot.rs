//! Whole-store snapshot codec. A snapshot is a single text document: every
//! mutation serializes the full store through `Database::to_snapshot`, and
//! startup restores it with `Database::from_snapshot`, falling back to an
//! empty store when the document does not conform. Numbers are fixed-width
//! hexadecimal (low digit first) and strings are length-prefixed, so the
//! codec round-trips every store exactly.

use vstd::prelude::*;

use crate::records::{Task, TaskView, User, UserView};
use crate::store::{distinct_task_ids, distinct_user_ids, Database, DbView};

verus! {

/// The hexadecimal digit character for a value below 16.
pub open spec fn hex_char(d: nat) -> char {
    if d == 0 {
        '0'
    } else if d == 1 {
        '1'
    } else if d == 2 {
        '2'
    } else if d == 3 {
        '3'
    } else if d == 4 {
        '4'
    } else if d == 5 {
        '5'
    } else if d == 6 {
        '6'
    } else if d == 7 {
        '7'
    } else if d == 8 {
        '8'
    } else if d == 9 {
        '9'
    } else if d == 10 {
        'a'
    } else if d == 11 {
        'b'
    } else if d == 12 {
        'c'
    } else if d == 13 {
        'd'
    } else if d == 14 {
        'e'
    } else {
        'f'
    }
}

/// The value of a hexadecimal digit character, or `None`.
pub open spec fn hex_val(c: char) -> Option<nat> {
    if c == '0' {
        Some(0 as nat)
    } else if c == '1' {
        Some(1 as nat)
    } else if c == '2' {
        Some(2 as nat)
    } else if c == '3' {
        Some(3 as nat)
    } else if c == '4' {
        Some(4 as nat)
    } else if c == '5' {
        Some(5 as nat)
    } else if c == '6' {
        Some(6 as nat)
    } else if c == '7' {
        Some(7 as nat)
    } else if c == '8' {
        Some(8 as nat)
    } else if c == '9' {
        Some(9 as nat)
    } else if c == 'a' {
        Some(10 as nat)
    } else if c == 'b' {
        Some(11 as nat)
    } else if c == 'c' {
        Some(12 as nat)
    } else if c == 'd' {
        Some(13 as nat)
    } else if c == 'e' {
        Some(14 as nat)
    } else if c == 'f' {
        Some(15 as nat)
    } else {
        None
    }
}

/// Sixteen to the `w`-th power.
pub open spec fn pow16(w: nat) -> nat
    decreases w,
{
    if w == 0 {
        1
    } else {
        16 * pow16((w - 1) as nat)
    }
}

/// A number as `w` hexadecimal digit characters, low digit first.
pub open spec fn enc_nat(v: nat, w: nat) -> Seq<char>
    decreases w,
{
    if w == 0 {
        Seq::empty()
    } else {
        seq![hex_char(v % 16)] + enc_nat(v / 16, (w - 1) as nat)
    }
}

/// Reads `w` hexadecimal digit characters at `i`, low digit first.
pub open spec fn parse_nat(s: Seq<char>, i: int, w: nat) -> Option<nat>
    decreases w,
{
    if i < 0 || i + w > s.len() {
        None
    } else if w == 0 {
        Some(0 as nat)
    } else {
        match hex_val(s[i]) {
            Some(d) => match parse_nat(s, i + 1, (w - 1) as nat) {
                Some(r) => Some((d + 16 * r) as nat),
                None => None,
            },
            None => None,
        }
    }
}

/// A string as its length (sixteen digits) followed by its characters.
pub open spec fn enc_str(c: Seq<char>) -> Seq<char> {
    enc_nat(c.len(), 16) + c
}

/// Reads a length-prefixed string at `i`; returns the string and the
/// position just past it.
pub open spec fn p_str(s: Seq<char>, i: int) -> Option<(Seq<char>, int)> {
    match parse_nat(s, i, 16) {
        Some(n) => if i + 16 + n <= s.len() {
            Some((s.subrange(i + 16, i + 16 + n), i + 16 + n))
        } else {
            None
        },
        None => None,
    }
}

/// A boolean as a single marker character.
pub open spec fn enc_bool(b: bool) -> Seq<char> {
    if b {
        seq!['T']
    } else {
        seq!['F']
    }
}

/// Reads a boolean marker at `i`.
pub open spec fn p_bool(s: Seq<char>, i: int) -> Option<(bool, int)> {
    if i < 0 || i + 1 > s.len() {
        None
    } else if s[i] == 'T' {
        Some((true, i + 1))
    } else if s[i] == 'F' {
        Some((false, i + 1))
    } else {
        None
    }
}

/// A task record: id, name, completion flag.
pub open spec fn enc_task(t: TaskView) -> Seq<char> {
    enc_nat(t.id as nat, 16) + enc_str(t.name) + enc_bool(t.completed)
}

/// Reads one task record at `i`.
pub open spec fn p_task(s: Seq<char>, i: int) -> Option<(TaskView, int)> {
    match parse_nat(s, i, 16) {
        Some(idv) => match p_str(s, i + 16) {
            Some((name, j)) => match p_bool(s, j) {
                Some((c, k)) => Some((TaskView { id: idv as u64, name, completed: c }, k)),
                None => None,
            },
            None => None,
        },
        None => None,
    }
}

/// A user record: id, username, password.
pub open spec fn enc_user(u: UserView) -> Seq<char> {
    enc_nat(u.id as nat, 16) + enc_str(u.username) + enc_str(u.password)
}

/// Reads one user record at `i`.
pub open spec fn p_user(s: Seq<char>, i: int) -> Option<(UserView, int)> {
    match parse_nat(s, i, 16) {
        Some(idv) => match p_str(s, i + 16) {
            Some((username, j)) => match p_str(s, j) {
                Some((password, k)) => Some(
                    (UserView { id: idv as u64, username, password }, k),
                ),
                None => None,
            },
            None => None,
        },
        None => None,
    }
}

/// A sequence of task records, one after the other.
pub open spec fn enc_tasks(ts: Seq<TaskView>) -> Seq<char>
    decreases ts.len(),
{
    if ts.len() == 0 {
        Seq::empty()
    } else {
        enc_task(ts[0]) + enc_tasks(ts.drop_first())
    }
}

/// Reads `n` task records starting at `i`.
pub open spec fn p_tasks(s: Seq<char>, i: int, n: nat) -> Option<(Seq<TaskView>, int)>
    decreases n,
{
    if n == 0 {
        Some((Seq::empty(), i))
    } else {
        match p_task(s, i) {
            Some((t, j)) => match p_tasks(s, j, (n - 1) as nat) {
                Some((ts, k)) => Some((seq![t] + ts, k)),
                None => None,
            },
            None => None,
        }
    }
}

/// A sequence of user records, one after the other.
pub open spec fn enc_users(us: Seq<UserView>) -> Seq<char>
    decreases us.len(),
{
    if us.len() == 0 {
        Seq::empty()
    } else {
        enc_user(us[0]) + enc_users(us.drop_first())
    }
}

/// Reads `n` user records starting at `i`.
pub open spec fn p_users(s: Seq<char>, i: int, n: nat) -> Option<(Seq<UserView>, int)>
    decreases n,
{
    if n == 0 {
        Some((Seq::empty(), i))
    } else {
        match p_user(s, i) {
            Some((u, j)) => match p_users(s, j, (n - 1) as nat) {
                Some((us, k)) => Some((seq![u] + us, k)),
                None => None,
            },
            None => None,
        }
    }
}

/// The whole store: task count, tasks, user count, users.
pub open spec fn enc_db(v: DbView) -> Seq<char> {
    enc_nat(v.tasks.len(), 16) + enc_tasks(v.tasks) + enc_nat(v.users.len(), 16) + enc_users(
        v.users,
    )
}

/// Reads a whole-store document. The document must be consumed exactly and
/// must satisfy the store invariant (distinct ids); anything else is
/// malformed and yields `None`, never a partial store.
pub open spec fn p_db(s: Seq<char>) -> Option<DbView> {
    match parse_nat(s, 0, 16) {
        Some(nt) => match p_tasks(s, 16, nt) {
            Some((ts, i)) => match parse_nat(s, i, 16) {
                Some(nu) => match p_users(s, i + 16, nu) {
                    Some((us, j)) => if j == s.len() && distinct_task_ids(ts)
                        && distinct_user_ids(us) {
                        Some(DbView { tasks: ts, users: us })
                    } else {
                        None
                    },
                    None => None,
                },
                None => None,
            },
            None => None,
        },
        None => None,
    }
}

/// A task small enough to encode: its name length fits sixteen digits.
pub open spec fn bounded_task(t: TaskView) -> bool {
    t.name.len() < pow16(16)
}

/// A user small enough to encode.
pub open spec fn bounded_user(u: UserView) -> bool {
    u.username.len() < pow16(16) && u.password.len() < pow16(16)
}

/// A store small enough to encode: all strings and both counts fit.
pub open spec fn bounded_db(v: DbView) -> bool {
    &&& forall|i: int| 0 <= i < v.tasks.len() ==> bounded_task(#[trigger] v.tasks[i])
    &&& forall|i: int| 0 <= i < v.users.len() ==> bounded_user(#[trigger] v.users[i])
    &&& v.tasks.len() < pow16(16)
    &&& v.users.len() < pow16(16)
}

/// The encoding `e` appears in `s` at position `i`.
pub open spec fn at_pos(s: Seq<char>, i: int, e: Seq<char>) -> bool {
    &&& 0 <= i
    &&& i + e.len() <= s.len()
    &&& forall|j: int| 0 <= j < e.len() ==> s[i + j] == e[j]
}

/// Sixteen digits of a 64-bit value cover every `u64`.
pub proof fn lemma_pow16_16()
    ensures
        pow16(16) == 0x10000000000000000,
{
    reveal_with_fuel(pow16, 17);
}

/// Powers of sixteen are positive and monotone.
pub proof fn lemma_pow16_le(a: nat, b: nat)
    requires
        a <= b,
    ensures
        0 < pow16(a) <= pow16(b),
    decreases b,
{
    if b > 0 {
        if a == b {
            lemma_pow16_le((a - 1) as nat, (b - 1) as nat);
        } else {
            lemma_pow16_le(a, (b - 1) as nat);
        }
    }
}

/// An encoded number takes exactly `w` characters.
pub proof fn lemma_enc_nat_len(v: nat, w: nat)
    ensures
        enc_nat(v, w).len() == w,
    decreases w,
{
    if w > 0 {
        lemma_enc_nat_len(v / 16, (w - 1) as nat);
    }
}

/// Splitting an occurrence of a concatenation.
pub proof fn lemma_at_concat(s: Seq<char>, i: int, a: Seq<char>, b: Seq<char>)
    requires
        at_pos(s, i, a + b),
    ensures
        at_pos(s, i, a),
        at_pos(s, i + a.len(), b),
{
    assert forall|j: int| 0 <= j < a.len() implies s[i + j] == a[j] by {
        assert((a + b)[j] == a[j]);
    }
    assert forall|j: int| 0 <= j < b.len() implies s[i + a.len() + j] == b[j] by {
        assert((a + b)[a.len() + j] == b[j]);
    }
}

/// A parsed number is below sixteen to the width.
pub proof fn lemma_parse_nat_lt(s: Seq<char>, i: int, w: nat)
    requires
        parse_nat(s, i, w) is Some,
    ensures
        parse_nat(s, i, w)->Some_0 < pow16(w),
    decreases w,
{
    if w > 0 {
        lemma_parse_nat_lt(s, i + 1, (w - 1) as nat);
        let d = hex_val(s[i])->Some_0;
        let r = parse_nat(s, i + 1, (w - 1) as nat)->Some_0;
        assert(d <= 15);
        assert(r < pow16((w - 1) as nat));
        assert(d + 16 * r < 16 * pow16((w - 1) as nat));
    }
}

/// A digit character reads back as its value.
pub proof fn lemma_hex_round(d: nat)
    requires
        d < 16,
    ensures
        hex_val(hex_char(d)) == Some(d),
{
}

/// A boolean marker reads back as its value.
pub proof fn lemma_parse_enc_bool(s: Seq<char>, i: int, b: bool)
    requires
        at_pos(s, i, enc_bool(b)),
    ensures
        p_bool(s, i) == Some((b, i + 1)),
{
    assert(s[i + 0] == enc_bool(b)[0]);
}

/// Reading back an encoded number yields the number.
pub proof fn lemma_parse_enc_nat(s: Seq<char>, i: int, v: nat, w: nat)
    requires
        at_pos(s, i, enc_nat(v, w)),
        v < pow16(w),
    ensures
        parse_nat(s, i, w) == Some(v),
    decreases w,
{
    lemma_enc_nat_len(v, w);
    if w == 0 {
        assert(v == 0);
    } else {
        let e = enc_nat(v, w);
        let e0 = seq![hex_char(v % 16)];
        assert(e == e0 + enc_nat(v / 16, (w - 1) as nat));
        lemma_at_concat(s, i, e0, enc_nat(v / 16, (w - 1) as nat));
        assert(s[i + 0] == e0[0]);
        assert(s[i] == hex_char(v % 16));
        lemma_hex_round(v % 16);
        assert(hex_val(s[i]) == Some(v % 16));
        vstd::arithmetic::div_mod::lemma_multiply_divide_lt(v as int, 16, pow16((w - 1) as nat) as int);
        assert(v / 16 < pow16((w - 1) as nat));
        lemma_parse_enc_nat(s, i + 1, v / 16, (w - 1) as nat);
        vstd::arithmetic::div_mod::lemma_fundamental_div_mod(v as int, 16);
        assert(v % 16 + 16 * (v / 16) == v);
    }
}

/// Reading back an encoded string yields the string.
pub proof fn lemma_parse_enc_str(s: Seq<char>, i: int, c: Seq<char>)
    requires
        at_pos(s, i, enc_str(c)),
        c.len() < pow16(16),
    ensures
        p_str(s, i) == Some((c, i + 16 + c.len())),
{
    lemma_enc_nat_len(c.len(), 16);
    lemma_at_concat(s, i, enc_nat(c.len(), 16), c);
    lemma_parse_enc_nat(s, i, c.len(), 16);
    assert(s.subrange(i + 16, i + 16 + c.len()) =~= c);
}

/// Reading back an encoded task yields the task.
pub proof fn lemma_parse_enc_task(s: Seq<char>, i: int, t: TaskView)
    requires
        at_pos(s, i, enc_task(t)),
        bounded_task(t),
    ensures
        p_task(s, i) == Some((t, i + enc_task(t).len())),
{
    lemma_pow16_16();
    lemma_enc_nat_len(t.id as nat, 16);
    lemma_enc_nat_len(t.name.len(), 16);
    lemma_at_concat(s, i, enc_nat(t.id as nat, 16) + enc_str(t.name), enc_bool(t.completed));
    lemma_at_concat(s, i, enc_nat(t.id as nat, 16), enc_str(t.name));
    lemma_parse_enc_nat(s, i, t.id as nat, 16);
    lemma_parse_enc_str(s, i + 16, t.name);
    let j: int = i + 16 + 16 + t.name.len() as int;
    assert(at_pos(s, j, enc_bool(t.completed)));
    lemma_parse_enc_bool(s, j, t.completed);
    let parsed = p_task(s, i)->Some_0.0;
    assert(parsed =~= t);
    assert(enc_task(t).len() == 16 + 16 + t.name.len() + 1);
}

/// Reading back an encoded user yields the user.
pub proof fn lemma_parse_enc_user(s: Seq<char>, i: int, u: UserView)
    requires
        at_pos(s, i, enc_user(u)),
        bounded_user(u),
    ensures
        p_user(s, i) == Some((u, i + enc_user(u).len())),
{
    lemma_pow16_16();
    lemma_enc_nat_len(u.id as nat, 16);
    lemma_enc_nat_len(u.username.len(), 16);
    lemma_enc_nat_len(u.password.len(), 16);
    lemma_at_concat(s, i, enc_nat(u.id as nat, 16) + enc_str(u.username), enc_str(u.password));
    lemma_at_concat(s, i, enc_nat(u.id as nat, 16), enc_str(u.username));
    lemma_parse_enc_nat(s, i, u.id as nat, 16);
    lemma_parse_enc_str(s, i + 16, u.username);
    let j: int = i + 16 + 16 + u.username.len() as int;
    lemma_parse_enc_str(s, j, u.password);
    let parsed = p_user(s, i)->Some_0.0;
    assert(parsed =~= u);
    assert(enc_user(u).len() == 16 + 16 + u.username.len() + 16 + u.password.len());
}

/// Reading back an encoded task sequence yields the sequence.
pub proof fn lemma_parse_enc_tasks(s: Seq<char>, i: int, ts: Seq<TaskView>)
    requires
        at_pos(s, i, enc_tasks(ts)),
        forall|k: int| 0 <= k < ts.len() ==> bounded_task(#[trigger] ts[k]),
    ensures
        p_tasks(s, i, ts.len()) == Some((ts, i + enc_tasks(ts).len())),
    decreases ts.len(),
{
    if ts.len() > 0 {
        let rest = ts.drop_first();
        lemma_at_concat(s, i, enc_task(ts[0]), enc_tasks(rest));
        lemma_parse_enc_task(s, i, ts[0]);
        let j = i + enc_task(ts[0]).len();
        assert(forall|k: int| 0 <= k < rest.len() ==> bounded_task(#[trigger] rest[k]));
        lemma_parse_enc_tasks(s, j, rest);
        assert(seq![ts[0]] + rest =~= ts);
    }
}

/// Reading back an encoded user sequence yields the sequence.
pub proof fn lemma_parse_enc_users(s: Seq<char>, i: int, us: Seq<UserView>)
    requires
        at_pos(s, i, enc_users(us)),
        forall|k: int| 0 <= k < us.len() ==> bounded_user(#[trigger] us[k]),
    ensures
        p_users(s, i, us.len()) == Some((us, i + enc_users(us).len())),
    decreases us.len(),
{
    if us.len() > 0 {
        let rest = us.drop_first();
        lemma_at_concat(s, i, enc_user(us[0]), enc_users(rest));
        lemma_parse_enc_user(s, i, us[0]);
        let j = i + enc_user(us[0]).len();
        assert(forall|k: int| 0 <= k < rest.len() ==> bounded_user(#[trigger] rest[k]));
        lemma_parse_enc_users(s, j, rest);
        assert(seq![us[0]] + rest =~= us);
    }
}

/// The snapshot round trip: reading back an encoded store yields exactly
/// the store, for every well-formed store that fits the encoding,
/// including the empty one.
pub proof fn lemma_snapshot_round_trip(v: DbView)
    requires
        distinct_task_ids(v.tasks),
        distinct_user_ids(v.users),
        bounded_db(v),
    ensures
        p_db(enc_db(v)) == Some(v),
{
    let s = enc_db(v);
    let a = enc_nat(v.tasks.len(), 16);
    let b = enc_tasks(v.tasks);
    let c = enc_nat(v.users.len(), 16);
    let d = enc_users(v.users);
    assert(s == a + b + c + d);
    lemma_enc_nat_len(v.tasks.len(), 16);
    lemma_enc_nat_len(v.users.len(), 16);
    assert(at_pos(s, 0, s));
    assert(a + b + c + d =~= (a + b + c) + d);
    lemma_at_concat(s, 0, a + b + c, d);
    assert(a + b + c =~= (a + b) + c);
    assert(at_pos(s, 0, (a + b) + c));
    lemma_at_concat(s, 0, a + b, c);
    lemma_at_concat(s, 0, a, b);
    lemma_parse_enc_nat(s, 0, v.tasks.len(), 16);
    lemma_parse_enc_tasks(s, 16, v.tasks);
    let i: int = 16 + b.len() as int;
    lemma_parse_enc_nat(s, i, v.users.len(), 16);
    lemma_parse_enc_users(s, i + 16, v.users);
    let j: int = i + 16 + d.len() as int;
    assert(j == s.len());
    assert(p_db(s)->Some_0 =~= v);
}


/// Relies on `String`'s `FromIterator` over `char`: collecting an iterator
/// of characters yields a string holding exactly those characters.
#[verifier::external_body]
pub(crate) fn chars_to_string(v: &Vec<char>) -> (s: String)
    ensures
        s@ == v@,
{
    v.iter().collect()
}

/// The characters of a string slice, in order.
pub(crate) fn string_chars(s: &str) -> (v: Vec<char>)
    ensures
        v@ == s@,
{
    let mut v: Vec<char> = Vec::new();
    for c in it: s.chars()
        invariant
            v@.len() == it.index(),
            forall|j: int| 0 <= j < v@.len() ==> v@[j] == it.seq()[j],
            it.seq() == s@,
    {
        v.push(c);
    }
    proof {
        assert(v@ =~= s@);
    }
    v
}

/// The digit character of a value below 16.
fn hex_char_exec(d: u8) -> (r: char)
    requires
        d < 16,
    ensures
        r == hex_char(d as nat),
{
    if d == 0 {
        '0'
    } else if d == 1 {
        '1'
    } else if d == 2 {
        '2'
    } else if d == 3 {
        '3'
    } else if d == 4 {
        '4'
    } else if d == 5 {
        '5'
    } else if d == 6 {
        '6'
    } else if d == 7 {
        '7'
    } else if d == 8 {
        '8'
    } else if d == 9 {
        '9'
    } else if d == 10 {
        'a'
    } else if d == 11 {
        'b'
    } else if d == 12 {
        'c'
    } else if d == 13 {
        'd'
    } else if d == 14 {
        'e'
    } else {
        'f'
    }
}

/// The value of a digit character, or `None`.
fn hex_val_exec(c: char) -> (r: Option<u8>)
    ensures
        match r {
            Some(d) => d < 16 && hex_val(c) == Some(d as nat),
            None => hex_val(c) is None,
        },
{
    if c == '0' {
        Some(0)
    } else if c == '1' {
        Some(1)
    } else if c == '2' {
        Some(2)
    } else if c == '3' {
        Some(3)
    } else if c == '4' {
        Some(4)
    } else if c == '5' {
        Some(5)
    } else if c == '6' {
        Some(6)
    } else if c == '7' {
        Some(7)
    } else if c == '8' {
        Some(8)
    } else if c == '9' {
        Some(9)
    } else if c == 'a' {
        Some(10)
    } else if c == 'b' {
        Some(11)
    } else if c == 'c' {
        Some(12)
    } else if c == 'd' {
        Some(13)
    } else if c == 'e' {
        Some(14)
    } else if c == 'f' {
        Some(15)
    } else {
        None
    }
}

/// Appends `w` digits of `v`, low digit first.
pub(crate) fn push_nat16(out: &mut Vec<char>, v: u64, w: usize)
    requires
        (v as nat) < pow16(w as nat),
    ensures
        final(out)@ == old(out)@ + enc_nat(v as nat, w as nat),
    decreases w,
{
    if w == 0 {
        proof {
            assert(out@ =~= old(out)@ + enc_nat(v as nat, 0));
        }
    } else {
        let d: u8 = (v % 16) as u8;
        let c = hex_char_exec(d);
        out.push(c);
        proof {
            vstd::arithmetic::div_mod::lemma_multiply_divide_lt(
                v as int,
                16,
                pow16((w - 1) as nat) as int,
            );
            assert(((v / 16) as nat) < pow16((w - 1) as nat));
        }
        push_nat16(out, v / 16, w - 1);
        proof {
            assert(c == hex_char((v as nat) % 16));
            assert(out@ =~= old(out)@ + enc_nat(v as nat, w as nat));
        }
    }
}

/// Reads `w` digits at `i`, low digit first.
pub(crate) fn parse_nat16(s: &Vec<char>, i: usize, w: usize) -> (r: Option<u64>)
    requires
        w <= 16,
    ensures
        match r {
            Some(v) => parse_nat(s@, i as int, w as nat) == Some(v as nat) && i + w <= s@.len(),
            None => parse_nat(s@, i as int, w as nat) is None,
        },
    decreases w,
{
    if i > s.len() || w > s.len() - i {
        return None;
    }
    if w == 0 {
        return Some(0);
    }
    match hex_val_exec(s[i]) {
        Some(d) => match parse_nat16(s, i + 1, w - 1) {
            Some(r0) => {
                proof {
                    lemma_parse_nat_lt(s@, i as int + 1, (w - 1) as nat);
                    lemma_pow16_le((w - 1) as nat, 15);
                    lemma_pow16_16();
                    assert(pow16(16) == 16 * pow16(15));
                    assert((r0 as nat) < pow16(15));
                }
                Some((d as u64) + 16 * r0)
            },
            None => None,
        },
        None => None,
    }
}

/// Appends a length-prefixed string.
pub(crate) fn push_chars(out: &mut Vec<char>, s: &String)
    ensures
        final(out)@ == old(out)@ + enc_str(s@),
        s@.len() < pow16(16),
{
    let cs = string_chars(s.as_str());
    proof {
        lemma_pow16_16();
    }
    let n: u64 = cs.len() as u64;
    push_nat16(out, n, 16);
    let ghost mid = out@;
    let mut j: usize = 0;
    while j < cs.len()
        invariant
            cs@ == s@,
            mid == old(out)@ + enc_nat(s@.len(), 16),
            out@ == mid + cs@.subrange(0, j as int),
            0 <= j <= cs.len(),
        decreases cs.len() - j,
    {
        out.push(cs[j]);
        j += 1;
        proof {
            assert(out@ =~= mid + cs@.subrange(0, j as int));
        }
    }
    proof {
        assert(cs@.subrange(0, cs@.len() as int) =~= cs@);
        assert(out@ =~= old(out)@ + enc_str(s@));
    }
}

/// Appends a length-prefixed character run.
pub(crate) fn push_char_vec(out: &mut Vec<char>, cs: &Vec<char>)
    ensures
        final(out)@ == old(out)@ + enc_str(cs@),
        cs@.len() < pow16(16),
{
    proof {
        lemma_pow16_16();
    }
    let n: u64 = cs.len() as u64;
    push_nat16(out, n, 16);
    let ghost mid = out@;
    let mut j: usize = 0;
    while j < cs.len()
        invariant
            mid == old(out)@ + enc_nat(cs@.len(), 16),
            out@ == mid + cs@.subrange(0, j as int),
            0 <= j <= cs.len(),
        decreases cs.len() - j,
    {
        out.push(cs[j]);
        j += 1;
        proof {
            assert(out@ =~= mid + cs@.subrange(0, j as int));
        }
    }
    proof {
        assert(cs@.subrange(0, cs@.len() as int) =~= cs@);
        assert(out@ =~= old(out)@ + enc_str(cs@));
    }
}

/// Reads a length-prefixed character run at `pos`.
pub(crate) fn parse_char_vec(s: &Vec<char>, pos: usize) -> (r: Option<(Vec<char>, usize)>)
    ensures
        match r {
            Some(p) => p_str(s@, pos as int) == Some((p.0@, p.1 as int)) && p.1 <= s@.len(),
            None => p_str(s@, pos as int) is None,
        },
{
    match parse_nat16(s, pos, 16) {
        Some(n) => {
            let sl: usize = s.len();
            let avail: usize = sl - (pos + 16);
            if n > avail as u64 {
                return None;
            }
            let cnt: usize = n as usize;
            let mut cs: Vec<char> = Vec::new();
            let mut j: usize = 0;
            while j < cnt
                invariant
                    pos + 16 + cnt <= s@.len(),
                    s@.len() <= usize::MAX,
                    0 <= j <= cnt,
                    cs@ == s@.subrange(pos as int + 16, pos as int + 16 + j as int),
                decreases cnt - j,
            {
                cs.push(s[pos + 16 + j]);
                j += 1;
                proof {
                    assert(cs@ =~= s@.subrange(pos as int + 16, pos as int + 16 + j as int));
                }
            }
            Some((cs, pos + 16 + cnt))
        },
        None => None,
    }
}

/// Reads a length-prefixed string at `pos`.
pub(crate) fn parse_string(s: &Vec<char>, pos: usize) -> (r: Option<(String, usize)>)
    ensures
        match r {
            Some(p) => p_str(s@, pos as int) == Some((p.0@, p.1 as int)) && p.1 <= s@.len(),
            None => p_str(s@, pos as int) is None,
        },
{
    match parse_char_vec(s, pos) {
        Some((cs, end)) => Some((chars_to_string(&cs), end)),
        None => None,
    }
}

/// Reads a boolean marker at `pos`.
fn parse_bool_exec(s: &Vec<char>, pos: usize) -> (r: Option<(bool, usize)>)
    ensures
        match r {
            Some(p) => p_bool(s@, pos as int) == Some((p.0, p.1 as int)) && p.1 <= s@.len(),
            None => p_bool(s@, pos as int) is None,
        },
{
    if pos < s.len() {
        let c = s[pos];
        if c == 'T' {
            Some((true, pos + 1))
        } else if c == 'F' {
            Some((false, pos + 1))
        } else {
            None
        }
    } else {
        None
    }
}

/// Appends one task record.
fn push_task(out: &mut Vec<char>, t: &Task)
    ensures
        final(out)@ == old(out)@ + enc_task(t@),
        bounded_task(t@),
{
    proof {
        lemma_pow16_16();
    }
    push_nat16(out, t.id, 16);
    push_chars(out, &t.name);
    out.push(if t.completed { 'T' } else { 'F' });
    proof {
        assert(out@ =~= old(out)@ + enc_task(t@));
    }
}

/// Appends one user record.
fn push_user(out: &mut Vec<char>, u: &User)
    ensures
        final(out)@ == old(out)@ + enc_user(u@),
        bounded_user(u@),
{
    proof {
        lemma_pow16_16();
    }
    push_nat16(out, u.id, 16);
    push_chars(out, &u.username);
    push_chars(out, &u.password);
    proof {
        assert(out@ =~= old(out)@ + enc_user(u@));
    }
}

/// Reads one task record at `pos`.
fn parse_task(s: &Vec<char>, pos: usize) -> (r: Option<(Task, usize)>)
    ensures
        match r {
            Some(p) => p_task(s@, pos as int) == Some((p.0@, p.1 as int)) && p.1 <= s@.len(),
            None => p_task(s@, pos as int) is None,
        },
{
    let _bound: usize = s.len();
    match parse_nat16(s, pos, 16) {
        Some(id) => match parse_string(s, pos + 16) {
            Some((name, j)) => match parse_bool_exec(s, j) {
                Some((completed, k)) => {
                    let t = Task { id, name, completed };
                    proof {
                        assert(t@ =~= p_task(s@, pos as int)->Some_0.0);
                    }
                    Some((t, k))
                },
                None => None,
            },
            None => None,
        },
        None => None,
    }
}

/// Reads one user record at `pos`.
fn parse_user(s: &Vec<char>, pos: usize) -> (r: Option<(User, usize)>)
    ensures
        match r {
            Some(p) => p_user(s@, pos as int) == Some((p.0@, p.1 as int)) && p.1 <= s@.len(),
            None => p_user(s@, pos as int) is None,
        },
{
    let _bound: usize = s.len();
    match parse_nat16(s, pos, 16) {
        Some(id) => match parse_string(s, pos + 16) {
            Some((username, j)) => match parse_string(s, j) {
                Some((password, k)) => {
                    let u = User { id, username, password };
                    proof {
                        assert(u@ =~= p_user(s@, pos as int)->Some_0.0);
                    }
                    Some((u, k))
                },
                None => None,
            },
            None => None,
        },
        None => None,
    }
}

/// Reads `n` task records at `pos`.
fn parse_tasks(s: &Vec<char>, pos: usize, n: u64) -> (r: Option<(Vec<Task>, usize)>)
    requires
        pos <= s@.len(),
    ensures
        match r {
            Some(p) => p_tasks(s@, pos as int, n as nat) == Some(
                (p.0@.map_values(|t: Task| t@), p.1 as int),
            ) && p.1 <= s@.len(),
            None => p_tasks(s@, pos as int, n as nat) is None,
        },
    decreases n,
{
    if n == 0 {
        let v: Vec<Task> = Vec::new();
        proof {
            assert(v@.map_values(|t: Task| t@) =~= Seq::<TaskView>::empty());
        }
        return Some((v, pos));
    }
    match parse_task(s, pos) {
        Some((t, j)) => match parse_tasks(s, j, n - 1) {
            Some((v, end)) => {
                let ghost rest = v@.map_values(|t: Task| t@);
                let mut v2 = v;
                v2.insert(0, t);
                proof {
                    assert(v2@.map_values(|t: Task| t@) =~= seq![t@] + rest);
                }
                Some((v2, end))
            },
            None => None,
        },
        None => None,
    }
}

/// Reads `n` user records at `pos`.
fn parse_users(s: &Vec<char>, pos: usize, n: u64) -> (r: Option<(Vec<User>, usize)>)
    requires
        pos <= s@.len(),
    ensures
        match r {
            Some(p) => p_users(s@, pos as int, n as nat) == Some(
                (p.0@.map_values(|u: User| u@), p.1 as int),
            ) && p.1 <= s@.len(),
            None => p_users(s@, pos as int, n as nat) is None,
        },
    decreases n,
{
    if n == 0 {
        let v: Vec<User> = Vec::new();
        proof {
            assert(v@.map_values(|u: User| u@) =~= Seq::<UserView>::empty());
        }
        return Some((v, pos));
    }
    match parse_user(s, pos) {
        Some((u, j)) => match parse_users(s, j, n - 1) {
            Some((v, end)) => {
                let ghost rest = v@.map_values(|u: User| u@);
                let mut v2 = v;
                v2.insert(0, u);
                proof {
                    assert(v2@.map_values(|u: User| u@) =~= seq![u@] + rest);
                }
                Some((v2, end))
            },
            None => None,
        },
        None => None,
    }
}

/// Whether all task ids in the vector are distinct.
fn distinct_tasks_exec(v: &Vec<Task>) -> (b: bool)
    ensures
        b == distinct_task_ids(v@.map_values(|t: Task| t@)),
{
    let ghost m = v@.map_values(|t: Task| t@);
    let mut i: usize = 0;
    while i < v.len()
        invariant
            m == v@.map_values(|t: Task| t@),
            0 <= i <= v.len(),
            forall|a: int, b2: int| 0 <= a < b2 < i ==> m[a].id != m[b2].id,
        decreases v.len() - i,
    {
        let mut j: usize = 0;
        while j < i
            invariant
                m == v@.map_values(|t: Task| t@),
                0 <= j <= i < v.len(),
                forall|b2: int| 0 <= b2 < j ==> m[b2].id != m[i as int].id,
            decreases i - j,
        {
            if v[j].id == v[i].id {
                proof {
                    assert(m[j as int].id == m[i as int].id);
                    if distinct_task_ids(m) {
                        assert(m[j as int].id != m[i as int].id);
                    }
                }
                return false;
            }
            j += 1;
        }
        i += 1;
    }
    true
}

/// Whether all user ids in the vector are distinct.
fn distinct_users_exec(v: &Vec<User>) -> (b: bool)
    ensures
        b == distinct_user_ids(v@.map_values(|u: User| u@)),
{
    let ghost m = v@.map_values(|u: User| u@);
    let mut i: usize = 0;
    while i < v.len()
        invariant
            m == v@.map_values(|u: User| u@),
            0 <= i <= v.len(),
            forall|a: int, b2: int| 0 <= a < b2 < i ==> m[a].id != m[b2].id,
        decreases v.len() - i,
    {
        let mut j: usize = 0;
        while j < i
            invariant
                m == v@.map_values(|u: User| u@),
                0 <= j <= i < v.len(),
                forall|b2: int| 0 <= b2 < j ==> m[b2].id != m[i as int].id,
            decreases i - j,
        {
            if v[j].id == v[i].id {
                proof {
                    assert(m[j as int].id == m[i as int].id);
                    if distinct_user_ids(m) {
                        assert(m[j as int].id != m[i as int].id);
                    }
                }
                return false;
            }
            j += 1;
        }
        i += 1;
    }
    true
}

/// Appending a task extends its encoded sequence at the end.
pub proof fn lemma_enc_tasks_snoc(ts: Seq<TaskView>, t: TaskView)
    ensures
        enc_tasks(ts.push(t)) == enc_tasks(ts) + enc_task(t),
    decreases ts.len(),
{
    if ts.len() == 0 {
        assert(ts.push(t)[0] == t);
        assert(ts.push(t).drop_first() =~= Seq::<TaskView>::empty());
        assert(enc_tasks(ts.push(t)) == enc_task(t) + enc_tasks(Seq::<TaskView>::empty()));
        assert(enc_tasks(Seq::<TaskView>::empty()) =~= Seq::<char>::empty());
        assert(enc_tasks(ts) =~= Seq::<char>::empty());
        assert(enc_tasks(ts.push(t)) =~= enc_tasks(ts) + enc_task(t));
    } else {
        assert(ts.push(t)[0] == ts[0]);
        assert(ts.push(t).drop_first() =~= ts.drop_first().push(t));
        lemma_enc_tasks_snoc(ts.drop_first(), t);
        assert(enc_tasks(ts.push(t)) == enc_task(ts[0]) + enc_tasks(ts.drop_first().push(t)));
        assert(enc_tasks(ts.push(t)) == enc_task(ts[0]) + (enc_tasks(ts.drop_first()) + enc_task(
            t,
        )));
        assert(enc_task(ts[0]) + (enc_tasks(ts.drop_first()) + enc_task(t)) =~= (enc_task(ts[0])
            + enc_tasks(ts.drop_first())) + enc_task(t));
        assert(enc_tasks(ts) == enc_task(ts[0]) + enc_tasks(ts.drop_first()));
    }
}

/// Appending a user extends its encoded sequence at the end.
pub proof fn lemma_enc_users_snoc(us: Seq<UserView>, u: UserView)
    ensures
        enc_users(us.push(u)) == enc_users(us) + enc_user(u),
    decreases us.len(),
{
    if us.len() == 0 {
        assert(us.push(u)[0] == u);
        assert(us.push(u).drop_first() =~= Seq::<UserView>::empty());
        assert(enc_users(us.push(u)) == enc_user(u) + enc_users(Seq::<UserView>::empty()));
        assert(enc_users(Seq::<UserView>::empty()) =~= Seq::<char>::empty());
        assert(enc_users(us) =~= Seq::<char>::empty());
        assert(enc_users(us.push(u)) =~= enc_users(us) + enc_user(u));
    } else {
        assert(us.push(u)[0] == us[0]);
        assert(us.push(u).drop_first() =~= us.drop_first().push(u));
        lemma_enc_users_snoc(us.drop_first(), u);
        assert(enc_users(us.push(u)) == enc_user(us[0]) + enc_users(us.drop_first().push(u)));
        assert(enc_users(us.push(u)) == enc_user(us[0]) + (enc_users(us.drop_first()) + enc_user(
            u,
        )));
        assert(enc_user(us[0]) + (enc_users(us.drop_first()) + enc_user(u)) =~= (enc_user(us[0])
            + enc_users(us.drop_first())) + enc_user(u));
        assert(enc_users(us) == enc_user(us[0]) + enc_users(us.drop_first()));
    }
}

impl Database {
    /// Serializes the whole store into one snapshot document. The document
    /// reads back as exactly this store: durability is full-state-out,
    /// full-state-in.
    pub fn to_snapshot(&self) -> (r: Vec<char>)
        requires
            self.wf(),
        ensures
            r@ == enc_db(self@),
            p_db(r@) == Some(self@),
    {
        let ghost a = enc_nat(self@.tasks.len(), 16);
        let mut out: Vec<char> = Vec::new();
        proof {
            lemma_pow16_16();
            crate::store::view_parts(self);
            assert(self@.tasks.len() == self.tasks@.len());
        }
        push_nat16(&mut out, self.tasks.len() as u64, 16);
        proof {
            assert((self.tasks.len() as u64) as nat == self@.tasks.len());
            assert(enc_tasks(self@.tasks.subrange(0, 0)) =~= Seq::<char>::empty());
            assert(out@ =~= a + enc_tasks(self@.tasks.subrange(0, 0)));
        }
        let mut i: usize = 0;
        while i < self.tasks.len()
            invariant
                self@.tasks == self.tasks@.map_values(|t: Task| t@),
                0 <= i <= self.tasks.len(),
                a == enc_nat(self@.tasks.len(), 16),
                out@ == a + enc_tasks(self@.tasks.subrange(0, i as int)),
                forall|k: int| 0 <= k < i ==> bounded_task(#[trigger] self@.tasks[k]),
            decreases self.tasks.len() - i,
        {
            push_task(&mut out, &self.tasks[i]);
            i += 1;
            proof {
                let pre = self@.tasks.subrange(0, i as int - 1);
                lemma_enc_tasks_snoc(pre, self@.tasks[i as int - 1]);
                assert(self@.tasks.subrange(0, i as int) =~= pre.push(self@.tasks[i as int - 1]));
                assert(out@ =~= a + enc_tasks(self@.tasks.subrange(0, i as int)));
            }
        }
        proof {
            assert(self@.tasks.subrange(0, self@.tasks.len() as int) =~= self@.tasks);
        }
        let ghost mid = out@;
        let ghost c = enc_nat(self@.users.len(), 16);
        proof {
            crate::store::view_parts(self);
            assert(self@.users.len() == self.users@.len());
        }
        push_nat16(&mut out, self.users.len() as u64, 16);
        proof {
            assert((self.users.len() as u64) as nat == self@.users.len());
            assert(enc_users(self@.users.subrange(0, 0)) =~= Seq::<char>::empty());
            assert(out@ =~= mid + c + enc_users(self@.users.subrange(0, 0)));
        }
        let mut i2: usize = 0;
        while i2 < self.users.len()
            invariant
                self@.users == self.users@.map_values(|u: User| u@),
                0 <= i2 <= self.users.len(),
                mid == enc_nat(self@.tasks.len(), 16) + enc_tasks(self@.tasks),
                c == enc_nat(self@.users.len(), 16),
                out@ == mid + c + enc_users(self@.users.subrange(0, i2 as int)),
                forall|k: int| 0 <= k < i2 ==> bounded_user(#[trigger] self@.users[k]),
            decreases self.users.len() - i2,
        {
            push_user(&mut out, &self.users[i2]);
            i2 += 1;
            proof {
                let pre = self@.users.subrange(0, i2 as int - 1);
                lemma_enc_users_snoc(pre, self@.users[i2 as int - 1]);
                assert(self@.users.subrange(0, i2 as int) =~= pre.push(self@.users[i2 as int - 1]));
                assert(out@ =~= mid + c + enc_users(self@.users.subrange(0, i2 as int)));
            }
        }
        proof {
            assert(self@.users.subrange(0, self@.users.len() as int) =~= self@.users);
            assert(out@ =~= enc_db(self@));
            assert(bounded_db(self@));
            lemma_snapshot_round_trip(self@);
        }
        out
    }

    /// Restores a store from a snapshot document. A document that does not
    /// conform exactly (truncated, trailing text, bad digits, repeated ids)
    /// yields `None` and never a partially populated store.
    pub fn from_snapshot(s: &Vec<char>) -> (r: Option<Database>)
        ensures
            match r {
                Some(db) => db.wf() && p_db(s@) == Some(db@),
                None => p_db(s@) is None,
            },
    {
        let nt = match parse_nat16(s, 0, 16) {
            Some(n) => n,
            None => {
                return None;
            },
        };
        let (tasks, i) = match parse_tasks(s, 16, nt) {
            Some(p) => p,
            None => {
                return None;
            },
        };
        let nu = match parse_nat16(s, i, 16) {
            Some(n) => n,
            None => {
                return None;
            },
        };
        let _bound: usize = s.len();
        let (users, j) = match parse_users(s, i + 16, nu) {
            Some(p) => p,
            None => {
                return None;
            },
        };
        if j != s.len() {
            return None;
        }
        if !distinct_tasks_exec(&tasks) {
            return None;
        }
        if !distinct_users_exec(&users) {
            return None;
        }
        let db = Database { tasks, users };
        proof {
            crate::store::view_parts(&db);
            assert(db@.tasks =~= p_db(s@)->Some_0.tasks);
            assert(db@.users =~= p_db(s@)->Some_0.users);
            assert(db@ =~= p_db(s@)->Some_0);
        }
        Some(db)
    }
}

} // verus!
