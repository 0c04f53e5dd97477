//! The record format of the task file, with a verified encoder and
//! decoder.
//!
//! A collection is kept as a bracketed list of task objects, one field per
//! task for the due time (seconds, possibly negative), the name (a quoted
//! string with backslash escapes) and the weight (one of the five weight
//! words). The encoder writes the compact canonical form; the decoder also
//! accepts extra whitespace between list elements and around the tokens
//! inside each task object, so a record that was pretty-printed or edited
//! by hand still reads.

use vstd::prelude::*;
use crate::task::{Task, TaskV, WorkWeight, views, task_v_valid};

verus! {

// ---------------------------------------------------------------------
// The canonical written form.
// ---------------------------------------------------------------------

/// The character written for one decimal digit.
pub open spec fn digit_char(d: int) -> char {
    if d == 0 { '0' }
    else if d == 1 { '1' }
    else if d == 2 { '2' }
    else if d == 3 { '3' }
    else if d == 4 { '4' }
    else if d == 5 { '5' }
    else if d == 6 { '6' }
    else if d == 7 { '7' }
    else if d == 8 { '8' }
    else { '9' }
}

/// The decimal digits of a non-negative number, highest first, with no
/// leading zero.
pub open spec fn dec_digits(n: int) -> Seq<char>
    recommends
        n >= 0,
    decreases n,
{
    if n < 10 {
        seq![digit_char(n)]
    } else {
        dec_digits(n / 10).push(digit_char(n % 10))
    }
}

/// The written form of a possibly negative number.
pub open spec fn enc_i64(n: int) -> Seq<char> {
    if n < 0 {
        seq!['-'] + dec_digits(-n)
    } else {
        dec_digits(n)
    }
}

/// The written form of one name character: quote, backslash and the
/// common control characters are escaped, everything else stands as
/// itself.
pub open spec fn esc_char(c: char) -> Seq<char> {
    if c == '"' { "\\\""@ }
    else if c == '\\' { "\\\\"@ }
    else if c == '\n' { "\\n"@ }
    else if c == '\t' { "\\t"@ }
    else if c == '\r' { "\\r"@ }
    else { seq![c] }
}

/// The written form of a name, character by character.
pub open spec fn enc_str(s: Seq<char>) -> Seq<char>
    decreases s.len(),
{
    if s.len() == 0 {
        Seq::empty()
    } else {
        esc_char(s[0]) + enc_str(s.drop_first())
    }
}

/// The word written for a weight.
pub open spec fn weight_word(w: WorkWeight) -> Seq<char> {
    match w {
        WorkWeight::UltraLight => "UltraLight"@,
        WorkWeight::Light => "Light"@,
        WorkWeight::Medium => "Medium"@,
        WorkWeight::Heavy => "Heavy"@,
        WorkWeight::UltraHeavy => "UltraHeavy"@,
    }
}

/// The opening of a task object, up to the due field's value.
pub open spec fn k_due() -> Seq<char> {
    "{\"due_date\":"@
}

/// The text between the due field and the name's opening quote.
pub open spec fn k_name() -> Seq<char> {
    ",\"name\":\""@
}

/// The text from the name's closing quote to the weight word.
pub open spec fn k_weight() -> Seq<char> {
    "\",\"weight\":\""@
}

/// The closing of a task object, after the weight word.
pub open spec fn k_end() -> Seq<char> {
    "\"}"@
}

/// The written form of one task.
pub open spec fn enc_task(t: TaskV) -> Seq<char> {
    k_due() + enc_i64(t.due_date) + k_name() + enc_str(t.name) + k_weight() + weight_word(t.weight)
        + k_end()
}

/// The written forms of the tasks, separated by commas.
pub open spec fn enc_list(ts: Seq<TaskV>) -> Seq<char>
    decreases ts.len(),
{
    if ts.len() == 0 {
        Seq::empty()
    } else if ts.len() == 1 {
        enc_task(ts[0])
    } else {
        enc_task(ts[0]) + seq![','] + enc_list(ts.drop_first())
    }
}

/// The canonical written form of a whole collection.
pub open spec fn spec_encode(ts: Seq<TaskV>) -> Seq<char> {
    seq!['['] + enc_list(ts) + seq![']']
}

// ---------------------------------------------------------------------
// What the decoder accepts.
// ---------------------------------------------------------------------

/// A whitespace character between list elements.
pub open spec fn is_ws(c: char) -> bool {
    c == ' ' || c == '\n' || c == '\t' || c == '\r'
}

/// A decimal digit.
pub open spec fn is_digit(c: char) -> bool {
    '0' <= c && c <= '9'
}

/// The value of a digit character.
pub open spec fn digit_val(c: char) -> int {
    (c as int) - ('0' as int)
}

/// The first position at or after `i` that does not hold whitespace.
pub open spec fn skip_ws(s: Seq<char>, i: int) -> int
    decreases s.len() - i,
{
    if 0 <= i < s.len() && is_ws(s[i]) {
        skip_ws(s, i + 1)
    } else {
        i
    }
}

/// The end of the run of digits that starts at `i`.
pub open spec fn digit_run_end(s: Seq<char>, i: int) -> int
    decreases s.len() - i,
{
    if 0 <= i < s.len() && is_digit(s[i]) {
        digit_run_end(s, i + 1)
    } else {
        i
    }
}

/// The number a sequence of digits stands for.
pub open spec fn digits_val(d: Seq<char>) -> int
    decreases d.len(),
{
    if d.len() == 0 {
        0
    } else {
        digits_val(d.drop_last()) * 10 + digit_val(d.last())
    }
}

/// Reads the literal `lit` at position `i`: the position after it, if it
/// stands there.
pub open spec fn expect_lit(s: Seq<char>, i: int, lit: Seq<char>) -> Option<int> {
    if 0 <= i && i + lit.len() <= s.len() && s.subrange(i, i + lit.len()) == lit {
        Some(i + lit.len())
    } else {
        None
    }
}

/// Reads an unsigned number at position `i`: its value and the position
/// after its digits, if a digit stands at `i`.
pub open spec fn parse_nat(s: Seq<char>, i: int) -> Option<(int, int)> {
    let j = digit_run_end(s, i);
    if j == i {
        None
    } else {
        Some((digits_val(s.subrange(i, j)), j))
    }
}

/// Reads a possibly signed number that fits a signed 64-bit count of
/// seconds.
pub open spec fn parse_int(s: Seq<char>, i: int) -> Option<(int, int)> {
    if 0 <= i < s.len() && s[i] == '-' {
        match parse_nat(s, i + 1) {
            Some((v, j)) => if -v >= i64::MIN { Some((-v, j)) } else { None },
            None => None,
        }
    } else {
        match parse_nat(s, i) {
            Some((v, j)) => if v <= i64::MAX { Some((v, j)) } else { None },
            None => None,
        }
    }
}

/// Reads the body of a quoted string from position `i` to its closing
/// quote, undoing the escapes; `acc` holds what was read before `i`.
pub open spec fn parse_string(s: Seq<char>, i: int, acc: Seq<char>) -> Option<(Seq<char>, int)>
    decreases s.len() - i,
{
    if i < 0 || i >= s.len() {
        None
    } else if s[i] == '"' {
        Some((acc, i + 1))
    } else if s[i] == '\\' {
        if i + 1 < s.len() {
            let c = s[i + 1];
            if c == '"' { parse_string(s, i + 2, acc.push('"')) }
            else if c == '\\' { parse_string(s, i + 2, acc.push('\\')) }
            else if c == 'n' { parse_string(s, i + 2, acc.push('\n')) }
            else if c == 't' { parse_string(s, i + 2, acc.push('\t')) }
            else if c == 'r' { parse_string(s, i + 2, acc.push('\r')) }
            else { None }
        } else {
            None
        }
    } else {
        parse_string(s, i + 1, acc.push(s[i]))
    }
}

/// Reads the literal `lit` after any whitespace at position `i`.
pub open spec fn expect_token(s: Seq<char>, i: int, lit: Seq<char>) -> Option<int> {
    expect_lit(s, skip_ws(s, i), lit)
}

/// The quoted form of a weight word, as it stands in a record.
pub open spec fn quoted_weight(w: WorkWeight) -> Seq<char> {
    match w {
        WorkWeight::UltraLight => "\"UltraLight\""@,
        WorkWeight::Light => "\"Light\""@,
        WorkWeight::Medium => "\"Medium\""@,
        WorkWeight::Heavy => "\"Heavy\""@,
        WorkWeight::UltraHeavy => "\"UltraHeavy\""@,
    }
}

/// Reads a quoted weight word after any whitespace at position `i`.
pub open spec fn parse_weight(s: Seq<char>, i: int) -> Option<(WorkWeight, int)> {
    if expect_token(s, i, quoted_weight(WorkWeight::UltraLight)) is Some {
        Some((WorkWeight::UltraLight, expect_token(s, i, quoted_weight(WorkWeight::UltraLight))->Some_0))
    } else if expect_token(s, i, quoted_weight(WorkWeight::Light)) is Some {
        Some((WorkWeight::Light, expect_token(s, i, quoted_weight(WorkWeight::Light))->Some_0))
    } else if expect_token(s, i, quoted_weight(WorkWeight::Medium)) is Some {
        Some((WorkWeight::Medium, expect_token(s, i, quoted_weight(WorkWeight::Medium))->Some_0))
    } else if expect_token(s, i, quoted_weight(WorkWeight::Heavy)) is Some {
        Some((WorkWeight::Heavy, expect_token(s, i, quoted_weight(WorkWeight::Heavy))->Some_0))
    } else if expect_token(s, i, quoted_weight(WorkWeight::UltraHeavy)) is Some {
        Some((WorkWeight::UltraHeavy, expect_token(s, i, quoted_weight(WorkWeight::UltraHeavy))->Some_0))
    } else {
        None
    }
}

/// Reads one task object at position `i`, allowing whitespace around
/// every token inside it.
pub open spec fn parse_task(s: Seq<char>, i: int) -> Option<(TaskV, int)> {
    match expect_token(s, i, "{"@) {
        None => None,
        Some(t1) => match expect_token(s, t1, "\"due_date\""@) {
            None => None,
            Some(t2) => match expect_token(s, t2, ":"@) {
                None => None,
                Some(t3) => match parse_int(s, skip_ws(s, t3)) {
                    None => None,
                    Some((d, t4)) => match expect_token(s, t4, ","@) {
                        None => None,
                        Some(t5) => match expect_token(s, t5, "\"name\""@) {
                            None => None,
                            Some(t6) => match expect_token(s, t6, ":"@) {
                                None => None,
                                Some(t7) => match expect_token(s, t7, "\""@) {
                                    None => None,
                                    Some(t8) => match parse_string(s, t8, Seq::empty()) {
                                        None => None,
                                        Some((nm, t9)) => if nm.len() == 0 {
                                            None
                                        } else {
                                            match expect_token(s, t9, ","@) {
                                                None => None,
                                                Some(t10) => match expect_token(s, t10, "\"weight\""@) {
                                                    None => None,
                                                    Some(t11) => match expect_token(s, t11, ":"@) {
                                                        None => None,
                                                        Some(t12) => match parse_weight(s, t12) {
                                                            None => None,
                                                            Some((w, t13)) => match expect_token(s, t13, "}"@) {
                                                                None => None,
                                                                Some(t14) => Some(
                                                                    (TaskV { due_date: d, name: nm, weight: w }, t14),
                                                                ),
                                                            },
                                                        },
                                                    },
                                                },
                                            }
                                        },
                                    },
                                },
                            },
                        },
                    },
                },
            },
        },
    }
}

/// Reads the rest of a non-empty task list, up to and past the closing
/// bracket; `acc` holds the tasks read before `i`.
pub open spec fn parse_tasks(s: Seq<char>, i: int, acc: Seq<TaskV>) -> Option<(Seq<TaskV>, int)>
    decreases s.len() - i,
{
    match parse_task(s, i) {
        None => None,
        Some((t, j)) => {
            let j2 = skip_ws(s, j);
            if 0 <= j2 < s.len() && s[j2] == ']' {
                Some((acc.push(t), j2 + 1))
            } else if 0 <= j2 < s.len() && s[j2] == ',' {
                let j3 = skip_ws(s, j2 + 1);
                if i < j3 <= s.len() {
                    parse_tasks(s, j3, acc.push(t))
                } else {
                    None
                }
            } else {
                None
            }
        },
    }
}

/// What a written record stands for: the task values it carries, or
/// nothing if it is not a valid record.
pub open spec fn spec_decode(s: Seq<char>) -> Option<Seq<TaskV>> {
    let i = skip_ws(s, 0);
    if i < s.len() && s[i] == '[' {
        let j = skip_ws(s, i + 1);
        if j < s.len() && s[j] == ']' {
            if skip_ws(s, j + 1) == s.len() {
                Some(Seq::empty())
            } else {
                None
            }
        } else {
            match parse_tasks(s, j, Seq::empty()) {
                None => None,
                Some((ts, j2)) => if skip_ws(s, j2) == s.len() {
                    Some(ts)
                } else {
                    None
                },
            }
        }
    } else {
        None
    }
}

// ---------------------------------------------------------------------
// The encoder.
// ---------------------------------------------------------------------

/// Relies on `Iterator::collect` for `String`: the returned string holds
/// exactly the characters of the vector, in order.
#[verifier::external_body]
fn chars_to_string(v: &Vec<char>) -> (r: String)
    ensures
        r@ == v@,
{
    v.iter().collect()
}

/// Pushes the characters of a literal.
fn push_lit(out: &mut Vec<char>, lit: &str)
    ensures
        final(out)@ == old(out)@ + lit@,
{
    let n = lit.unicode_len();
    let mut i: usize = 0;
    while i < n
        invariant
            i <= n,
            n == lit@.len(),
            out@ == old(out)@ + lit@.take(i as int),
        decreases n - i,
    {
        let c = lit.get_char(i);
        out.push(c);
        proof {
            assert(old(out)@ + lit@.take(i as int + 1) =~= (old(out)@ + lit@.take(i as int)).push(
                lit@[i as int],
            ));
        }
        i = i + 1;
    }
    proof {
        assert(lit@.take(n as int) =~= lit@);
    }
}

/// The character of one digit.
fn digit_char_exec(d: u64) -> (r: char)
    requires
        d < 10,
    ensures
        r == digit_char(d as int),
{
    match d {
        0 => '0',
        1 => '1',
        2 => '2',
        3 => '3',
        4 => '4',
        5 => '5',
        6 => '6',
        7 => '7',
        8 => '8',
        _ => '9',
    }
}

/// Pushes the decimal digits of a non-negative number.
fn push_digits(out: &mut Vec<char>, m: u64)
    ensures
        final(out)@ == old(out)@ + dec_digits(m as int),
    decreases m,
{
    if m < 10 {
        let c = digit_char_exec(m);
        out.push(c);
        proof {
            assert(old(out)@ + dec_digits(m as int) =~= old(out)@.push(digit_char(m as int)));
        }
    } else {
        push_digits(out, m / 10);
        let c = digit_char_exec(m % 10);
        out.push(c);
        proof {
            assert(old(out)@ + dec_digits(m as int) =~= (old(out)@ + dec_digits(m as int / 10)).push(
                digit_char(m as int % 10),
            ));
        }
    }
}

/// Pushes the written form of a possibly negative number.
fn push_i64(out: &mut Vec<char>, n: i64)
    ensures
        final(out)@ == old(out)@ + enc_i64(n as int),
{
    if n < 0 {
        out.push('-');
        let mag: u64 = (-(n as i128)) as u64;
        proof {
            assert(mag as int == -(n as int));
        }
        push_digits(out, mag);
        proof {
            assert(old(out)@ + enc_i64(n as int) =~= (old(out)@.push('-')) + dec_digits(
                -(n as int),
            ));
        }
    } else {
        push_digits(out, n as u64);
    }
}

/// Pushes the written form of one name character.
fn push_escaped(out: &mut Vec<char>, c: char)
    ensures
        final(out)@ == old(out)@ + esc_char(c),
{
    if c == '"' {
        push_lit(out, "\\\"");
    } else if c == '\\' {
        push_lit(out, "\\\\");
    } else if c == '\n' {
        push_lit(out, "\\n");
    } else if c == '\t' {
        push_lit(out, "\\t");
    } else if c == '\r' {
        push_lit(out, "\\r");
    } else {
        out.push(c);
        proof {
            assert(old(out)@ + esc_char(c) =~= old(out)@.push(c));
        }
    }
}

/// The written form of a name grows by one escaped character at a time.
proof fn lemma_enc_str_snoc(s: Seq<char>, c: char)
    ensures
        enc_str(s.push(c)) == enc_str(s) + esc_char(c),
    decreases s.len(),
{
    if s.len() == 0 {
        assert(s.push(c).drop_first() =~= Seq::<char>::empty());
        assert(s.push(c)[0] == c);
        assert(enc_str(Seq::<char>::empty()) == Seq::<char>::empty());
        assert(enc_str(s.push(c)) == esc_char(c) + enc_str(Seq::<char>::empty()));
        assert(enc_str(s.push(c)) =~= esc_char(c));
        assert(enc_str(s) + esc_char(c) =~= esc_char(c));
    } else {
        assert(s.push(c).drop_first() =~= s.drop_first().push(c));
        lemma_enc_str_snoc(s.drop_first(), c);
        assert(enc_str(s.push(c)) =~= enc_str(s) + esc_char(c));
    }
}

/// Pushes the written form of a name.
fn push_name(out: &mut Vec<char>, name: &str)
    ensures
        final(out)@ == old(out)@ + enc_str(name@),
{
    let n = name.unicode_len();
    let mut i: usize = 0;
    while i < n
        invariant
            i <= n,
            n == name@.len(),
            out@ == old(out)@ + enc_str(name@.take(i as int)),
        decreases n - i,
    {
        let c = name.get_char(i);
        push_escaped(out, c);
        proof {
            assert(name@.take(i as int + 1) =~= name@.take(i as int).push(name@[i as int]));
            lemma_enc_str_snoc(name@.take(i as int), name@[i as int]);
            assert(old(out)@ + enc_str(name@.take(i as int + 1)) =~= (old(out)@ + enc_str(
                name@.take(i as int),
            )) + esc_char(name@[i as int]));
        }
        i = i + 1;
    }
    proof {
        assert(name@.take(n as int) =~= name@);
    }
}

/// Pushes the weight word.
fn push_weight(out: &mut Vec<char>, w: WorkWeight)
    ensures
        final(out)@ == old(out)@ + weight_word(w),
{
    match w {
        WorkWeight::UltraLight => push_lit(out, "UltraLight"),
        WorkWeight::Light => push_lit(out, "Light"),
        WorkWeight::Medium => push_lit(out, "Medium"),
        WorkWeight::Heavy => push_lit(out, "Heavy"),
        WorkWeight::UltraHeavy => push_lit(out, "UltraHeavy"),
    }
}

/// Pushes the written form of one task.
fn push_task(out: &mut Vec<char>, t: &Task)
    ensures
        final(out)@ == old(out)@ + enc_task(t@),
{
    push_lit(out, "{\"due_date\":");
    push_i64(out, t.due_date);
    push_lit(out, ",\"name\":\"");
    push_name(out, t.name.as_str());
    push_lit(out, "\",\"weight\":\"");
    push_weight(out, t.weight);
    push_lit(out, "\"}");
    proof {
        assert(old(out)@ + enc_task(t@) =~= ((((((old(out)@ + k_due()) + enc_i64(t@.due_date))
            + k_name()) + enc_str(t@.name)) + k_weight()) + weight_word(t@.weight)) + k_end());
    }
}

/// The written form of a whole collection, in the canonical compact
/// shape.
pub fn encode_tasks(tasks: &Vec<Task>) -> (r: String)
    ensures
        r@ == spec_encode(views(tasks@)),
{
    let mut out: Vec<char> = Vec::new();
    out.push('[');
    let n = tasks.len();
    let mut i: usize = 0;
    while i < n
        invariant
            i <= n,
            n == tasks@.len(),
            i == 0 ==> out@ == seq!['['],
            i > 0 ==> out@ == seq!['['] + enc_list(views(tasks@).take(i as int)),
            views(tasks@).take(i as int).len() == i,
        decreases n - i,
    {
        if i > 0 {
            out.push(',');
        }
        let ghost base = out@;
        push_task(&mut out, &tasks[i]);
        proof {
            lemma_enc_list_snoc(views(tasks@).take(i as int), tasks@[i as int]@);
            assert(views(tasks@).take(i as int + 1) =~= views(tasks@).take(i as int).push(
                tasks@[i as int]@,
            ));
            if i == 0 {
                assert(out@ =~= seq!['['] + enc_list(views(tasks@).take(1)));
            } else {
                assert(out@ =~= seq!['['] + enc_list(views(tasks@).take(i as int + 1)));
            }
        }
        i = i + 1;
    }
    out.push(']');
    proof {
        assert(views(tasks@).take(n as int) =~= views(tasks@));
        assert(out@ =~= spec_encode(views(tasks@)));
    }
    chars_to_string(&out)
}

/// The written list grows by a comma and one task at a time.
proof fn lemma_enc_list_snoc(ts: Seq<TaskV>, t: TaskV)
    ensures
        ts.len() == 0 ==> enc_list(ts.push(t)) == enc_task(t),
        ts.len() > 0 ==> enc_list(ts.push(t)) == enc_list(ts) + seq![','] + enc_task(t),
    decreases ts.len(),
{
    if ts.len() == 0 {
        assert(enc_list(ts.push(t)) == enc_task(ts.push(t)[0]));
    } else {
        assert(ts.push(t).drop_first() =~= ts.drop_first().push(t));
        lemma_enc_list_snoc(ts.drop_first(), t);
        assert(enc_list(ts.push(t)) =~= enc_list(ts) + seq![','] + enc_task(t));
    }
}

// ---------------------------------------------------------------------
// The decoder.
// ---------------------------------------------------------------------

/// Every character of a sequence is a digit.
pub open spec fn all_digits(d: Seq<char>) -> bool {
    forall|k: int| 0 <= k < d.len() ==> is_digit(d[k])
}

/// A digit sequence stands for a non-negative number.
proof fn lemma_digits_val_nonneg(d: Seq<char>)
    requires
        all_digits(d),
    ensures
        digits_val(d) >= 0,
    decreases d.len(),
{
    if d.len() > 0 {
        assert(all_digits(d.drop_last()));
        lemma_digits_val_nonneg(d.drop_last());
        assert(digit_val(d.last()) >= 0);
    }
}

/// Appending digits never lowers the value a sequence stands for.
proof fn lemma_digits_val_prefix(a: Seq<char>, b: Seq<char>)
    requires
        all_digits(a),
        all_digits(b),
    ensures
        digits_val(a + b) >= digits_val(a),
    decreases b.len(),
{
    lemma_digits_val_nonneg(a);
    if b.len() == 0 {
        assert(a + b =~= a);
    } else {
        assert(all_digits(b.drop_last()));
        lemma_digits_val_prefix(a, b.drop_last());
        assert((a + b).drop_last() =~= a + b.drop_last());
        assert(all_digits(a + b.drop_last()));
        lemma_digits_val_nonneg(a + b.drop_last());
        assert((a + b).last() == b.last());
        assert(is_digit(b.last()));
        assert(digits_val(a + b) == digits_val(a + b.drop_last()) * 10 + digit_val(b.last()));
    }
}

/// What the digit run's end satisfies: it closes the maximal run of
/// digits that starts at `i`.
proof fn lemma_digit_run_props(s: Seq<char>, i: int)
    requires
        0 <= i <= s.len(),
    ensures
        i <= digit_run_end(s, i) <= s.len(),
        forall|k: int| i <= k < digit_run_end(s, i) ==> is_digit(s[k]),
        digit_run_end(s, i) < s.len() ==> !is_digit(s[digit_run_end(s, i)]),
    decreases s.len() - i,
{
    if i < s.len() && is_digit(s[i]) {
        lemma_digit_run_props(s, i + 1);
    }
}

/// The value of a digit run grows by one digit at a time.
proof fn lemma_digits_val_snoc(d: Seq<char>, c: char)
    ensures
        digits_val(d.push(c)) == digits_val(d) * 10 + digit_val(c),
{
    assert(d.push(c).drop_last() =~= d);
    assert(d.push(c).last() == c);
}

/// The digit of a character, if it is one.
fn digit_of(c: char) -> (r: Option<u64>)
    ensures
        r is Some <==> is_digit(c),
        r is Some ==> r->Some_0 as int == digit_val(c) && r->Some_0 < 10,
{
    let u = c as u32;
    if 48 <= u && u <= 57 {
        Some((u - 48) as u64)
    } else {
        None
    }
}

/// Whether a character is whitespace between list elements.
fn is_ws_exec(c: char) -> (r: bool)
    ensures
        r == is_ws(c),
{
    c == ' ' || c == '\n' || c == '\t' || c == '\r'
}

/// Finds the first position at or after `i` without whitespace.
fn exec_skip_ws(s: &str, i: usize, n: usize) -> (r: usize)
    requires
        n == s@.len(),
        i <= n,
    ensures
        r as int == skip_ws(s@, i as int),
        i <= r <= n,
{
    let mut j = i;
    loop
        invariant
            i <= j <= n,
            n == s@.len(),
            skip_ws(s@, i as int) == skip_ws(s@, j as int),
        decreases n - j,
    {
        if j >= n {
            return j;
        }
        let c = s.get_char(j);
        if !is_ws_exec(c) {
            return j;
        }
        proof {
            assert(skip_ws(s@, j as int) == skip_ws(s@, j as int + 1));
        }
        j = j + 1;
    }
}

/// Reads a possibly signed number at `i`, if one in range stands there.
fn exec_parse_int(s: &str, i: usize, n: usize) -> (r: Option<(i64, usize)>)
    requires
        n == s@.len(),
        i <= n,
    ensures
        match r {
            Some(p) => parse_int(s@, i as int) == Some((p.0 as int, p.1 as int)) && i < p.1 <= n,
            None => parse_int(s@, i as int) is None,
        },
{
    let neg = i < n && s.get_char(i) == '-';
    let start = if neg { i + 1 } else { i };
    let bound: u64 = if neg { 9223372036854775808 } else { 9223372036854775807 };
    proof {
        lemma_digit_run_props(s@, start as int);
    }
    let ghost e = digit_run_end(s@, start as int);
    let mut j = start;
    let mut mag: u64 = 0;
    loop
        invariant
            start <= j <= n,
            i <= start <= i + 1,
            n == s@.len(),
            e == digit_run_end(s@, start as int),
            digit_run_end(s@, j as int) == e,
            start <= e <= n,
            forall|k: int| start <= k < e ==> is_digit(s@[k]),
            e < n ==> !is_digit(s@[e as int]),
            j <= e,
            mag as int == digits_val(s@.subrange(start as int, j as int)),
            mag <= bound,
            neg == (0 <= i < s@.len() && s@[i as int] == '-'),
            start as int == if neg { i + 1int } else { i as int },
            bound as int == if neg { 0x8000000000000000int } else { 0x7fffffffffffffffint },
        decreases n - j,
    {
        let ghost run = s@.subrange(start as int, e);
        let mut at_end = j >= n;
        let mut d: u64 = 0;
        if !at_end {
            let c = s.get_char(j);
            match digit_of(c) {
                Some(dv) => { d = dv; },
                None => { at_end = true; },
            };
        }
        if at_end {
            // the digit run stops here
            proof {
                assert(digit_run_end(s@, j as int) == j as int);
                assert(e == j as int);
            }
            if j == start {
                proof {
                    assert(parse_nat(s@, start as int) is None);
                }
                return None;
            }
            proof {
                assert(parse_nat(s@, start as int) == Some((mag as int, j as int)));
            }
            if neg {
                let v: i64 = (-(mag as i128)) as i64;
                proof {
                    assert(v as int == -(mag as int));
                }
                return Some((v, j));
            } else {
                let v: i64 = mag as i64;
                return Some((v, j));
            }
        }
        proof {
            assert(d < 10);
            assert(j < e) by {
                assert(is_digit(s@[j as int]));
                assert(digit_run_end(s@, j as int) == digit_run_end(s@, j as int + 1));
            }
        }
        if mag > (bound - d) / 10 {
            // the run's value cannot fit: every longer run is at least as large
            proof {
                let pre = s@.subrange(start as int, j as int + 1);
                assert(pre =~= s@.subrange(start as int, j as int).push(s@[j as int]));
                lemma_digits_val_snoc(s@.subrange(start as int, j as int), s@[j as int]);
                assert(digits_val(pre) == mag as int * 10 + d) by {
                    assert(d as int == digit_val(s@[j as int]));
                }
                assert(mag as int * 10 + d > bound) by {
                    let bd = bound as int - d as int;
                    vstd::arithmetic::div_mod::lemma_fundamental_div_mod(bd, 10);
                    vstd::arithmetic::div_mod::lemma_mod_bound(bd, 10);
                    let q = bd / 10;
                    assert(bd == 10 * q + (bd % 10));
                    assert(mag as int >= q + 1);
                }
                assert(run =~= pre + s@.subrange(j as int + 1, e));
                assert(all_digits(pre));
                assert(all_digits(s@.subrange(j as int + 1, e)));
                lemma_digits_val_prefix(pre, s@.subrange(j as int + 1, e));
                assert(digits_val(run) > bound);
                assert(e != start as int);
                assert(parse_nat(s@, start as int) == Some((digits_val(run), e)));
            }
            return None;
        }
        mag = mag * 10 + d;
        proof {
            let pre = s@.subrange(start as int, j as int + 1);
            assert(pre =~= s@.subrange(start as int, j as int).push(s@[j as int]));
            lemma_digits_val_snoc(s@.subrange(start as int, j as int), s@[j as int]);
            assert(digit_run_end(s@, j as int) == digit_run_end(s@, j as int + 1));
        }
        j = j + 1;
    }
}

/// Reads a quoted string body at `i`, if a well-formed one stands there.
fn exec_parse_string(s: &str, i: usize, n: usize) -> (r: Option<(Vec<char>, usize)>)
    requires
        n == s@.len(),
        i <= n,
    ensures
        match r {
            Some(p) => parse_string(s@, i as int, Seq::empty()) == Some((p.0@, p.1 as int)) && i
                < p.1 <= n,
            None => parse_string(s@, i as int, Seq::empty()) is None,
        },
{
    let mut acc: Vec<char> = Vec::new();
    let mut j = i;
    loop
        invariant
            i <= j <= n,
            n == s@.len(),
            parse_string(s@, i as int, Seq::empty()) == parse_string(s@, j as int, acc@),
        decreases n - j,
    {
        if j >= n {
            return None;
        }
        let c = s.get_char(j);
        if c == '"' {
            return Some((acc, j + 1));
        }
        if c == '\\' {
            if j + 1 >= n {
                return None;
            }
            let c2 = s.get_char(j + 1);
            if c2 == '"' {
                acc.push('"');
            } else if c2 == '\\' {
                acc.push('\\');
            } else if c2 == 'n' {
                acc.push('\n');
            } else if c2 == 't' {
                acc.push('\t');
            } else if c2 == 'r' {
                acc.push('\r');
            } else {
                return None;
            }
            j = j + 2;
        } else {
            acc.push(c);
            j = j + 1;
        }
    }
}

/// Reads the given literal at `i`, if it stands there.
fn expect_lit_exec(s: &str, i: usize, n: usize, lit: &str) -> (r: Option<usize>)
    requires
        n == s@.len(),
        i <= n,
    ensures
        match r {
            Some(j) => expect_lit(s@, i as int, lit@) == Some(j as int) && j as int == i + lit@.len()
                <= n,
            None => expect_lit(s@, i as int, lit@) is None,
        },
{
    let m = lit.unicode_len();
    if m > n - i {
        proof {
            assert(expect_lit(s@, i as int, lit@) is None);
        }
        return None;
    }
    let mut k: usize = 0;
    while k < m
        invariant
            k <= m,
            m == lit@.len(),
            n == s@.len(),
            i + m <= n,
            forall|p: int| 0 <= p < k ==> s@[i + p] == lit@[p],
        decreases m - k,
    {
        if s.get_char(i + k) != lit.get_char(k) {
            proof {
                assert(s@.subrange(i as int, i + lit@.len()) != lit@) by {
                    assert(s@.subrange(i as int, i + lit@.len())[k as int] == s@[i + k]);
                }
            }
            return None;
        }
        k = k + 1;
    }
    proof {
        assert(s@.subrange(i as int, i + lit@.len()) =~= lit@);
    }
    Some(i + m)
}

/// Reads the given literal after any whitespace at `i`.
fn exec_expect_token(s: &str, i: usize, n: usize, lit: &str) -> (r: Option<usize>)
    requires
        n == s@.len(),
        i <= n,
    ensures
        i <= skip_ws(s@, i as int) <= n,
        match r {
            Some(j) => expect_token(s@, i as int, lit@) == Some(j as int) && i <= j <= n && j as int
                == skip_ws(s@, i as int) + lit@.len(),
            None => expect_token(s@, i as int, lit@) is None,
        },
{
    let p = exec_skip_ws(s, i, n);
    expect_lit_exec(s, p, n, lit)
}

/// The quoted weight words, taken apart and measured.
proof fn lemma_weight_literals()
    ensures
        quoted_weight(WorkWeight::UltraLight) == seq!['"'] + weight_word(WorkWeight::UltraLight)
            + seq!['"'],
        quoted_weight(WorkWeight::Light) == seq!['"'] + weight_word(WorkWeight::Light) + seq!['"'],
        quoted_weight(WorkWeight::Medium) == seq!['"'] + weight_word(WorkWeight::Medium)
            + seq!['"'],
        quoted_weight(WorkWeight::Heavy) == seq!['"'] + weight_word(WorkWeight::Heavy) + seq!['"'],
        quoted_weight(WorkWeight::UltraHeavy) == seq!['"'] + weight_word(WorkWeight::UltraHeavy)
            + seq!['"'],
        quoted_weight(WorkWeight::UltraLight).len() == 12,
        quoted_weight(WorkWeight::Light).len() == 7,
        quoted_weight(WorkWeight::Medium).len() == 8,
        quoted_weight(WorkWeight::Heavy).len() == 7,
        quoted_weight(WorkWeight::UltraHeavy).len() == 12,
{
    reveal_strlit("\"UltraLight\"");
    reveal_strlit("UltraLight");
    reveal_strlit("\"Light\"");
    reveal_strlit("Light");
    reveal_strlit("\"Medium\"");
    reveal_strlit("Medium");
    reveal_strlit("\"Heavy\"");
    reveal_strlit("Heavy");
    reveal_strlit("\"UltraHeavy\"");
    reveal_strlit("UltraHeavy");
    assert(quoted_weight(WorkWeight::UltraLight) =~= seq!['"'] + weight_word(
        WorkWeight::UltraLight,
    ) + seq!['"']);
    assert(quoted_weight(WorkWeight::Light) =~= seq!['"'] + weight_word(WorkWeight::Light)
        + seq!['"']);
    assert(quoted_weight(WorkWeight::Medium) =~= seq!['"'] + weight_word(WorkWeight::Medium)
        + seq!['"']);
    assert(quoted_weight(WorkWeight::Heavy) =~= seq!['"'] + weight_word(WorkWeight::Heavy)
        + seq!['"']);
    assert(quoted_weight(WorkWeight::UltraHeavy) =~= seq!['"'] + weight_word(
        WorkWeight::UltraHeavy,
    ) + seq!['"']);
}

/// Reads a quoted weight word after any whitespace at `i`, if one stands
/// there.
fn exec_parse_weight(s: &str, i: usize, n: usize) -> (r: Option<(WorkWeight, usize)>)
    requires
        n == s@.len(),
        i <= n,
    ensures
        match r {
            Some(p) => parse_weight(s@, i as int) == Some((p.0, p.1 as int)) && i < p.1 <= n,
            None => parse_weight(s@, i as int) is None,
        },
{
    proof {
        lemma_weight_literals();
    }
    if let Some(j) = exec_expect_token(s, i, n, "\"UltraLight\"") {
        return Some((WorkWeight::UltraLight, j));
    }
    if let Some(j) = exec_expect_token(s, i, n, "\"Light\"") {
        return Some((WorkWeight::Light, j));
    }
    if let Some(j) = exec_expect_token(s, i, n, "\"Medium\"") {
        return Some((WorkWeight::Medium, j));
    }
    if let Some(j) = exec_expect_token(s, i, n, "\"Heavy\"") {
        return Some((WorkWeight::Heavy, j));
    }
    if let Some(j) = exec_expect_token(s, i, n, "\"UltraHeavy\"") {
        return Some((WorkWeight::UltraHeavy, j));
    }
    None
}

/// Reads one task object at `i`, if one stands there, with whitespace
/// allowed around every token inside it.
fn exec_parse_task(s: &str, i: usize, n: usize) -> (r: Option<(Task, usize)>)
    requires
        n == s@.len(),
        i <= n,
    ensures
        match r {
            Some(p) => parse_task(s@, i as int) == Some((p.0@, p.1 as int)) && i < p.1 <= n,
            None => parse_task(s@, i as int) is None,
        },
{
    proof {
        reveal_strlit("{");
        reveal_strlit("\"due_date\"");
        reveal_strlit(":");
        reveal_strlit(",");
        reveal_strlit("\"name\"");
        reveal_strlit("\"");
        reveal_strlit("\"weight\"");
        reveal_strlit("}");
    }
    let t1 = match exec_expect_token(s, i, n, "{") {
        Some(j) => j,
        None => { return None; },
    };
    let t2 = match exec_expect_token(s, t1, n, "\"due_date\"") {
        Some(j) => j,
        None => { return None; },
    };
    let t3 = match exec_expect_token(s, t2, n, ":") {
        Some(j) => j,
        None => { return None; },
    };
    let p = exec_skip_ws(s, t3, n);
    let (d, t4) = match exec_parse_int(s, p, n) {
        Some(q) => q,
        None => { return None; },
    };
    let t5 = match exec_expect_token(s, t4, n, ",") {
        Some(j) => j,
        None => { return None; },
    };
    let t6 = match exec_expect_token(s, t5, n, "\"name\"") {
        Some(j) => j,
        None => { return None; },
    };
    let t7 = match exec_expect_token(s, t6, n, ":") {
        Some(j) => j,
        None => { return None; },
    };
    let t8 = match exec_expect_token(s, t7, n, "\"") {
        Some(j) => j,
        None => { return None; },
    };
    let (nm, t9) = match exec_parse_string(s, t8, n) {
        Some(q) => q,
        None => { return None; },
    };
    if nm.len() == 0 {
        return None;
    }
    let t10 = match exec_expect_token(s, t9, n, ",") {
        Some(j) => j,
        None => { return None; },
    };
    let t11 = match exec_expect_token(s, t10, n, "\"weight\"") {
        Some(j) => j,
        None => { return None; },
    };
    let t12 = match exec_expect_token(s, t11, n, ":") {
        Some(j) => j,
        None => { return None; },
    };
    let (w, t13) = match exec_parse_weight(s, t12, n) {
        Some(q) => q,
        None => { return None; },
    };
    let t14 = match exec_expect_token(s, t13, n, "}") {
        Some(j) => j,
        None => { return None; },
    };
    let name = chars_to_string(&nm);
    let t = Task { due_date: d, name, weight: w };
    Some((t, t14))
}

/// Reads the rest of a non-empty task list at `i`, up to and past the
/// closing bracket, if it is well formed.
fn exec_parse_tasks(s: &str, i: usize, n: usize) -> (r: Option<(Vec<Task>, usize)>)
    requires
        n == s@.len(),
        i <= n,
    ensures
        match r {
            Some(p) => parse_tasks(s@, i as int, Seq::empty()) == Some((views(p.0@), p.1 as int))
                && p.1 <= n,
            None => parse_tasks(s@, i as int, Seq::empty()) is None,
        },
{
    let mut acc: Vec<Task> = Vec::new();
    let mut j = i;
    proof {
        assert(views(acc@) =~= Seq::<TaskV>::empty());
    }
    loop
        invariant
            i <= j <= n,
            n == s@.len(),
            parse_tasks(s@, i as int, Seq::empty()) == parse_tasks(s@, j as int, views(acc@)),
        decreases n - j,
    {
        let (t, j1) = match exec_parse_task(s, j, n) {
            Some(p) => p,
            None => { return None; },
        };
        let j2 = exec_skip_ws(s, j1, n);
        let ghost av = views(acc@);
        if j2 < n && s.get_char(j2) == ']' {
            acc.push(t);
            proof {
                assert(views(acc@) =~= av.push(t@));
            }
            return Some((acc, j2 + 1));
        }
        if j2 < n && s.get_char(j2) == ',' {
            let j3 = exec_skip_ws(s, j2 + 1, n);
            acc.push(t);
            proof {
                assert(views(acc@) =~= av.push(t@));
                assert(j < j3 <= n);
            }
            j = j3;
        } else {
            return None;
        }
    }
}

/// Reads a whole record: the tasks it carries, or nothing if the text is
/// not a valid record.
pub fn decode_tasks(s: &str) -> (r: Option<Vec<Task>>)
    ensures
        match r {
            Some(v) => spec_decode(s@) == Some(views(v@)),
            None => spec_decode(s@) is None,
        },
{
    let n = s.unicode_len();
    let i = exec_skip_ws(s, 0, n);
    if i < n && s.get_char(i) == '[' {
        let j = exec_skip_ws(s, i + 1, n);
        if j < n && s.get_char(j) == ']' {
            if exec_skip_ws(s, j + 1, n) == n {
                let v: Vec<Task> = Vec::new();
                proof {
                    assert(views(v@) =~= Seq::<TaskV>::empty());
                }
                Some(v)
            } else {
                None
            }
        } else {
            match exec_parse_tasks(s, j, n) {
                Some(p) => {
                    let (v, j2) = p;
                    if exec_skip_ws(s, j2, n) == n {
                        Some(v)
                    } else {
                        None
                    }
                },
                None => None,
            }
        }
    } else {
        None
    }
}

// ---------------------------------------------------------------------
// The round trip: decoding an encoded collection gives it back.
// ---------------------------------------------------------------------

/// A literal standing at a known position is read there.
proof fn lemma_expect_lit_at(pre: Seq<char>, lit: Seq<char>, rest: Seq<char>)
    ensures
        expect_lit(pre + lit + rest, pre.len() as int, lit) == Some(pre.len() + lit.len() as int),
{
    let s = pre + lit + rest;
    assert(s.subrange(pre.len() as int, pre.len() + lit.len() as int) =~= lit);
}

/// A literal that differs at one position is not read.
proof fn lemma_expect_lit_mismatch(s: Seq<char>, i: int, lit: Seq<char>, k: int)
    requires
        0 <= i,
        0 <= k < lit.len(),
        i + lit.len() <= s.len() ==> s[i + k] != lit[k],
    ensures
        expect_lit(s, i, lit) is None,
{
    if i + lit.len() <= s.len() {
        assert(s.subrange(i, i + lit.len())[k] == s[i + k]);
    }
}

/// Skipping whitespace stands still where none is.
proof fn lemma_skip_ws_still(s: Seq<char>, i: int)
    requires
        0 <= i,
        i < s.len() ==> !is_ws(s[i]),
    ensures
        skip_ws(s, i) == i,
{
}

/// The written digits of a number are digits and stand for it.
proof fn lemma_dec_digits(n: int)
    requires
        n >= 0,
    ensures
        all_digits(dec_digits(n)),
        digits_val(dec_digits(n)) == n,
        dec_digits(n).len() >= 1,
    decreases n,
{
    if n < 10 {
        assert(is_digit(digit_char(n)));
        assert(dec_digits(n).drop_last() =~= Seq::<char>::empty());
        assert(dec_digits(n).last() == digit_char(n));
        assert(digits_val(Seq::<char>::empty()) == 0);
        assert(digits_val(dec_digits(n)) == digit_val(digit_char(n)));
    } else {
        vstd::arithmetic::div_mod::lemma_fundamental_div_mod(n, 10);
        vstd::arithmetic::div_mod::lemma_mod_bound(n, 10);
        lemma_dec_digits(n / 10);
        lemma_digits_val_snoc(dec_digits(n / 10), digit_char(n % 10));
        assert(digit_val(digit_char(n % 10)) == n % 10);
        assert(forall|k: int|
            0 <= k < dec_digits(n).len() ==> is_digit(#[trigger] dec_digits(n)[k]));
    }
}

/// A run of digits standing at a known position, followed by something
/// else, is read as exactly that run.
proof fn lemma_digit_run_at(s: Seq<char>, i: int, m: int)
    requires
        0 <= i,
        i + m <= s.len(),
        m >= 0,
        forall|k: int| i <= k < i + m ==> is_digit(s[k]),
        i + m == s.len() || !is_digit(s[i + m]),
    ensures
        digit_run_end(s, i) == i + m,
    decreases m,
{
    if m > 0 {
        assert(is_digit(s[i]));
        lemma_digit_run_at(s, i + 1, m - 1);
    }
}

/// A number written at a known position, followed by something that is
/// not a digit, is read back as itself.
proof fn lemma_parse_int_at(pre: Seq<char>, n: int, rest: Seq<char>)
    requires
        i64::MIN <= n <= i64::MAX,
        rest.len() > 0,
        !is_digit(rest[0]),
    ensures
        parse_int(pre + enc_i64(n) + rest, pre.len() as int) == Some(
            (n, pre.len() + enc_i64(n).len() as int),
        ),
{
    let s = pre + enc_i64(n) + rest;
    let i = pre.len() as int;
    if n >= 0 {
        lemma_dec_digits(n);
        let m = dec_digits(n).len() as int;
        assert(forall|k: int| i <= k < i + m ==> is_digit(#[trigger] s[k]));
        assert(s[i + m] == rest[0]);
        lemma_digit_run_at(s, i, m);
        assert(s[i] == dec_digits(n)[0]);
        assert(is_digit(s[i]));
        assert(s[i] != '-');
        assert(s.subrange(i, i + m) =~= dec_digits(n));
        assert(parse_nat(s, i) == Some((n, i + m)));
    } else {
        lemma_dec_digits(-n);
        let m = dec_digits(-n).len() as int;
        assert(s[i] == '-');
        assert(forall|k: int| i + 1 <= k < i + 1 + m ==> is_digit(#[trigger] s[k]));
        assert(s[i + 1 + m] == rest[0]);
        lemma_digit_run_at(s, i + 1, m);
        assert(s.subrange(i + 1, i + 1 + m) =~= dec_digits(-n));
        assert(parse_nat(s, i + 1) == Some((-n, i + 1 + m)));
        assert(enc_i64(n).len() == 1 + m);
    }
}

/// A name written at a known position, with its closing quote, is read
/// back as itself.
proof fn lemma_parse_string_at(pre: Seq<char>, name: Seq<char>, rest: Seq<char>, acc: Seq<char>)
    ensures
        parse_string(pre + enc_str(name) + seq!['"'] + rest, pre.len() as int, acc) == Some(
            (acc + name, pre.len() + enc_str(name).len() + 1int),
        ),
    decreases name.len(),
{
    let s = pre + enc_str(name) + seq!['"'] + rest;
    let i = pre.len() as int;
    reveal_strlit("\\\"");
    reveal_strlit("\\\\");
    reveal_strlit("\\n");
    reveal_strlit("\\t");
    reveal_strlit("\\r");
    if name.len() == 0 {
        assert(enc_str(name) == Seq::<char>::empty());
        assert(s[i] == '"');
        assert(acc + name =~= acc);
    } else {
        let c = name[0];
        let tail = name.drop_first();
        let e = esc_char(c);
        assert(enc_str(name) == e + enc_str(tail));
        let pre2 = pre + e;
        assert(s =~= pre2 + enc_str(tail) + seq!['"'] + rest);
        lemma_parse_string_at(pre2, tail, rest, acc.push(c));
        assert(acc.push(c) + tail =~= acc + name);
        if c == '"' || c == '\\' || c == '\n' || c == '\t' || c == '\r' {
            assert(e.len() == 2);
            assert(e[0] == '\\');
            assert(s[i] == '\\');
            assert(s[i + 1] == e[1]);
            assert(i + 1 < s.len());
            if c == '"' {
                assert(e[1] == '"');
                assert(parse_string(s, i, acc) == parse_string(s, i + 2, acc.push('"')));
            } else if c == '\\' {
                assert(e[1] == '\\');
                assert(parse_string(s, i, acc) == parse_string(s, i + 2, acc.push('\\')));
            } else if c == '\n' {
                assert(e[1] == 'n');
                assert(parse_string(s, i, acc) == parse_string(s, i + 2, acc.push('\n')));
            } else if c == '\t' {
                assert(e[1] == 't');
                assert(parse_string(s, i, acc) == parse_string(s, i + 2, acc.push('\t')));
            } else {
                assert(e[1] == 'r');
                assert(parse_string(s, i, acc) == parse_string(s, i + 2, acc.push('\r')));
            }
        } else {
            assert(e =~= seq![c]);
            assert(s[i] == c);
            assert(parse_string(s, i, acc) == parse_string(s, i + 1, acc.push(c)));
        }
    }
}

/// A token standing at a known position, with nothing skipped before
/// it, is read there.
proof fn lemma_token_at(pre: Seq<char>, lit: Seq<char>, rest: Seq<char>)
    requires
        lit.len() > 0,
        !is_ws(lit[0]),
    ensures
        expect_token(pre + lit + rest, pre.len() as int, lit) == Some(
            pre.len() + lit.len() as int,
        ),
{
    let s = pre + lit + rest;
    assert(s[pre.len() as int] == lit[0]);
    lemma_skip_ws_still(s, pre.len() as int);
    lemma_expect_lit_at(pre, lit, rest);
}

/// The head of a written task object — its opening, the due key and the
/// due value — is read back token by token.
#[verifier::rlimit(100)]
#[verifier::spinoff_prover]
proof fn lemma_parse_task_head(pre: Seq<char>, t: TaskV, rest: Seq<char>)
    requires
        task_v_valid(t),
    ensures
        ({
            let s = pre + enc_task(t) + rest;
            let i = pre.len() as int;
            &&& expect_token(s, i, "{"@) == Some(i + 1)
            &&& expect_token(s, i + 1, "\"due_date\""@) == Some(i + 11)
            &&& expect_token(s, i + 11, ":"@) == Some(i + 12)
            &&& parse_int(s, skip_ws(s, i + 12)) == Some(
                (t.due_date, i + 12 + enc_i64(t.due_date).len()),
            )
        }),
{
    reveal_strlit("{\"due_date\":");
    reveal_strlit(",\"name\":\"");
    reveal_strlit("{");
    reveal_strlit("\"due_date\"");
    reveal_strlit(":");
    let s = pre + enc_task(t) + rest;
    let i = pre.len() as int;
    let num = enc_i64(t.due_date);
    let nm = enc_str(t.name);
    let tail4 = k_name() + nm + k_weight() + weight_word(t.weight) + k_end() + rest;
    assert(k_due() =~= "{"@ + "\"due_date\""@ + ":"@);
    assert(s =~= pre + "{"@ + ("\"due_date\""@ + ":"@ + num + tail4));
    lemma_token_at(pre, "{"@, "\"due_date\""@ + ":"@ + num + tail4);
    let pre1 = pre + "{"@;
    assert(s =~= pre1 + "\"due_date\""@ + (":"@ + num + tail4));
    lemma_token_at(pre1, "\"due_date\""@, ":"@ + num + tail4);
    let pre2 = pre1 + "\"due_date\""@;
    assert(s =~= pre2 + ":"@ + (num + tail4));
    lemma_token_at(pre2, ":"@, num + tail4);
    let t3 = i + 12;
    let pre3 = pre2 + ":"@;
    assert(s =~= pre3 + num + tail4);
    assert(!is_ws(s[t3])) by {
        if t.due_date < 0 {
            assert(num[0] == '-');
        } else {
            lemma_dec_digits(t.due_date);
            assert(is_digit(num[0]));
        }
        assert(s[t3] == num[0]);
    }
    lemma_skip_ws_still(s, t3);
    assert(tail4[0] == ',');
    assert(!is_digit(','));
    lemma_parse_int_at(pre3, t.due_date, tail4);
}

/// The middle of a written task object — the comma, the name key and the
/// quoted name — is read back token by token.
#[verifier::rlimit(100)]
#[verifier::spinoff_prover]
proof fn lemma_parse_task_name(pre: Seq<char>, t: TaskV, rest: Seq<char>)
    requires
        task_v_valid(t),
    ensures
        ({
            let s = pre + enc_task(t) + rest;
            let t4 = pre.len() + 12 + enc_i64(t.due_date).len() as int;
            &&& expect_token(s, t4, ","@) == Some(t4 + 1)
            &&& expect_token(s, t4 + 1, "\"name\""@) == Some(t4 + 7)
            &&& expect_token(s, t4 + 7, ":"@) == Some(t4 + 8)
            &&& expect_token(s, t4 + 8, "\""@) == Some(t4 + 9)
            &&& parse_string(s, t4 + 9, Seq::empty()) == Some(
                (t.name, t4 + 9 + enc_str(t.name).len() + 1),
            )
        }),
{
    reveal_strlit("{\"due_date\":");
    reveal_strlit(",\"name\":\"");
    reveal_strlit("\",\"weight\":\"");
    reveal_strlit("\"}");
    reveal_strlit(",");
    reveal_strlit("\"name\"");
    reveal_strlit(":");
    reveal_strlit("\"");
    reveal_strlit("\"weight\"");
    reveal_strlit("}");
    let s = pre + enc_task(t) + rest;
    let num = enc_i64(t.due_date);
    let nm = enc_str(t.name);
    let t4 = pre.len() + 12 + num.len() as int;
    let tail9 = k_weight() + weight_word(t.weight) + k_end() + rest;
    assert(k_name() =~= ","@ + "\"name\""@ + ":"@ + "\""@);
    let pre4 = pre + k_due() + num;
    assert(pre4.len() == t4);
    assert(s =~= pre4 + ","@ + ("\"name\""@ + ":"@ + "\""@ + nm + tail9));
    lemma_token_at(pre4, ","@, "\"name\""@ + ":"@ + "\""@ + nm + tail9);
    let pre5 = pre4 + ","@;
    assert(s =~= pre5 + "\"name\""@ + (":"@ + "\""@ + nm + tail9));
    lemma_token_at(pre5, "\"name\""@, ":"@ + "\""@ + nm + tail9);
    let pre6 = pre5 + "\"name\""@;
    assert(s =~= pre6 + ":"@ + ("\""@ + nm + tail9));
    lemma_token_at(pre6, ":"@, "\""@ + nm + tail9);
    let pre7 = pre6 + ":"@;
    assert(s =~= pre7 + "\""@ + (nm + tail9));
    lemma_token_at(pre7, "\""@, nm + tail9);
    let pre8 = pre7 + "\""@;
    let tail10 = ","@ + "\"weight\""@ + ":"@ + quoted_weight(t.weight) + "}"@ + rest;
    assert(k_weight() =~= "\""@ + ","@ + "\"weight\""@ + ":"@ + "\""@);
    assert(k_end() =~= "\""@ + "}"@);
    assert(quoted_weight(t.weight) =~= "\""@ + weight_word(t.weight) + "\""@) by {
        lemma_weight_literals();
    }
    assert(pre8 =~= pre + k_due() + num + k_name());
    assert(k_weight() + weight_word(t.weight) + k_end() + rest =~= seq!['"'] + tail10);
    assert(s =~= (pre + k_due() + num + k_name()) + nm + (k_weight() + weight_word(t.weight)
        + k_end() + rest));
    assert(s =~= pre8 + nm + seq!['"'] + tail10);
    lemma_parse_string_at(pre8, t.name, tail10, Seq::empty());
    assert(Seq::empty() + t.name =~= t.name);
}

/// The tail of a written task object — the weight key, the quoted weight
/// word and the closing — is read back token by token, and no other
/// weight word is read in its place.
#[verifier::rlimit(100)]
#[verifier::spinoff_prover]
proof fn lemma_parse_task_weight(pre: Seq<char>, t: TaskV, rest: Seq<char>)
    requires
        task_v_valid(t),
    ensures
        ({
            let s = pre + enc_task(t) + rest;
            let t9 = pre.len() + 12 + enc_i64(t.due_date).len() + 9 + enc_str(t.name).len()
                + 1 as int;
            let wl = weight_word(t.weight).len() as int;
            &&& expect_token(s, t9, ","@) == Some(t9 + 1)
            &&& expect_token(s, t9 + 1, "\"weight\""@) == Some(t9 + 9)
            &&& expect_token(s, t9 + 9, ":"@) == Some(t9 + 10)
            &&& parse_weight(s, t9 + 10) == Some((t.weight, t9 + 10 + wl + 2))
            &&& expect_token(s, t9 + 10 + wl + 2, "}"@) == Some(t9 + 10 + wl + 3)
            &&& enc_task(t).len() == 12 + enc_i64(t.due_date).len() + 9 + enc_str(t.name).len()
                + 12 + wl + 2
        }),
{
    reveal_strlit("{\"due_date\":");
    reveal_strlit(",\"name\":\"");
    reveal_strlit("\",\"weight\":\"");
    reveal_strlit("\"}");
    reveal_strlit(",");
    reveal_strlit("\"weight\"");
    reveal_strlit(":");
    reveal_strlit("\"");
    reveal_strlit("}");
    reveal_strlit("UltraLight");
    reveal_strlit("Light");
    reveal_strlit("Medium");
    reveal_strlit("Heavy");
    reveal_strlit("UltraHeavy");
    lemma_weight_literals();
    let s = pre + enc_task(t) + rest;
    let num = enc_i64(t.due_date);
    let nm = enc_str(t.name);
    let word = weight_word(t.weight);
    let qw = quoted_weight(t.weight);
    let t9 = pre.len() + 12 + num.len() + 9 + nm.len() + 1 as int;
    assert(k_weight() =~= "\""@ + ","@ + "\"weight\""@ + ":"@ + "\""@);
    assert(k_end() =~= "\""@ + "}"@);
    assert(qw =~= "\""@ + word + "\""@);
    let pre9 = pre + k_due() + num + k_name() + nm;
    assert(pre9.len() == t9 - 1);
    let pre9q = pre9 + "\""@;
    assert(pre9q.len() == t9);
    assert(s =~= pre9q + ","@ + ("\"weight\""@ + ":"@ + qw + "}"@ + rest));
    lemma_token_at(pre9q, ","@, "\"weight\""@ + ":"@ + qw + "}"@ + rest);
    let pre10 = pre9q + ","@;
    assert(s =~= pre10 + "\"weight\""@ + (":"@ + qw + "}"@ + rest));
    lemma_token_at(pre10, "\"weight\""@, ":"@ + qw + "}"@ + rest);
    let pre11 = pre10 + "\"weight\""@;
    assert(s =~= pre11 + ":"@ + (qw + "}"@ + rest));
    lemma_token_at(pre11, ":"@, qw + "}"@ + rest);
    let t12 = t9 + 10;
    let pre12 = pre11 + ":"@;
    assert(pre12.len() == t12);
    assert(s =~= pre12 + qw + ("}"@ + rest));
    lemma_token_at(pre12, qw, "}"@ + rest);
    let t13 = t12 + word.len() + 2;
    lemma_skip_ws_still(s, t12);
    assert(s[t12 + 1] == word[0]);
    match t.weight {
        WorkWeight::UltraLight => {
        },
        WorkWeight::Light => {
            assert(s[t12 + 1] == 'L');
            lemma_expect_lit_mismatch(s, t12, quoted_weight(WorkWeight::UltraLight), 1);
        },
        WorkWeight::Medium => {
            assert(s[t12 + 1] == 'M');
            lemma_expect_lit_mismatch(s, t12, quoted_weight(WorkWeight::UltraLight), 1);
            lemma_expect_lit_mismatch(s, t12, quoted_weight(WorkWeight::Light), 1);
        },
        WorkWeight::Heavy => {
            assert(s[t12 + 1] == 'H');
            lemma_expect_lit_mismatch(s, t12, quoted_weight(WorkWeight::UltraLight), 1);
            lemma_expect_lit_mismatch(s, t12, quoted_weight(WorkWeight::Light), 1);
            lemma_expect_lit_mismatch(s, t12, quoted_weight(WorkWeight::Medium), 1);
        },
        WorkWeight::UltraHeavy => {
            assert(s[t12 + 1] == 'U');
            assert(s[t12 + 6] == word[5]);
            assert(s[t12 + 6] == 'H');
            lemma_expect_lit_mismatch(s, t12, quoted_weight(WorkWeight::UltraLight), 6);
            lemma_expect_lit_mismatch(s, t12, quoted_weight(WorkWeight::Light), 1);
            lemma_expect_lit_mismatch(s, t12, quoted_weight(WorkWeight::Medium), 1);
            lemma_expect_lit_mismatch(s, t12, quoted_weight(WorkWeight::Heavy), 1);
        },
    }
    assert(parse_weight(s, t12) == Some((t.weight, t13)));
    let pre13 = pre12 + qw;
    assert(s =~= pre13 + "}"@ + rest);
    lemma_token_at(pre13, "}"@, rest);
}

/// A task written at a known position is read back as itself.
#[verifier::rlimit(100)]
#[verifier::spinoff_prover]
proof fn lemma_parse_task_at(pre: Seq<char>, t: TaskV, rest: Seq<char>)
    requires
        task_v_valid(t),
    ensures
        parse_task(pre + enc_task(t) + rest, pre.len() as int) == Some(
            (t, pre.len() + enc_task(t).len() as int),
        ),
{
    lemma_parse_task_head(pre, t, rest);
    lemma_parse_task_name(pre, t, rest);
    lemma_parse_task_weight(pre, t, rest);
    let s = pre + enc_task(t) + rest;
    let i = pre.len() as int;
    assert(t.name.len() > 0);
    assert(parse_task(s, i) == Some((t, i + enc_task(t).len())));
}

/// A task list written at a known position, with the closing bracket, is
/// read back as itself.
#[verifier::rlimit(100)]
#[verifier::spinoff_prover]
proof fn lemma_parse_tasks_at(pre: Seq<char>, ts: Seq<TaskV>, rest: Seq<char>, acc: Seq<TaskV>)
    requires
        ts.len() > 0,
        forall|k: int| 0 <= k < ts.len() ==> task_v_valid(#[trigger] ts[k]),
    ensures
        parse_tasks(pre + enc_list(ts) + seq![']'] + rest, pre.len() as int, acc) == Some(
            (acc + ts, pre.len() + enc_list(ts).len() + 1int),
        ),
    decreases ts.len(),
{
    reveal_strlit("{\"due_date\":");
    let s = pre + enc_list(ts) + seq![']'] + rest;
    let i = pre.len() as int;
    let t0 = ts[0];
    assert(task_v_valid(t0));
    if ts.len() == 1 {
        assert(enc_list(ts) == enc_task(t0));
        assert(s =~= pre + enc_task(t0) + (seq![']'] + rest));
        lemma_parse_task_at(pre, t0, seq![']'] + rest);
        let j = i + enc_task(t0).len() as int;
        assert(s[j] == ']');
        assert(!is_ws(']'));
        lemma_skip_ws_still(s, j);
        assert(acc.push(t0) =~= acc + ts);
    } else {
        let tail = ts.drop_first();
        assert(enc_list(ts) == enc_task(t0) + seq![','] + enc_list(tail));
        assert(s =~= pre + enc_task(t0) + (seq![','] + enc_list(tail) + seq![']'] + rest));
        lemma_parse_task_at(pre, t0, seq![','] + enc_list(tail) + seq![']'] + rest);
        let j = i + enc_task(t0).len() as int;
        assert(s[j] == ',');
        assert(!is_ws(','));
        lemma_skip_ws_still(s, j);
        assert(s[j] != ']');
        // the next task opens right after the comma
        assert(enc_list(tail)[0] == enc_task(tail[0])[0]) by {
            // whether one task or more remains, the list opens with it
            if tail.len() == 1 {
            } else {
            }
        }
        assert(enc_task(tail[0])[0] == k_due()[0]);
        assert(s[j + 1] == '{');
        assert(!is_ws('{'));
        lemma_skip_ws_still(s, j + 1);
        let pre2 = pre + enc_task(t0) + seq![','];
        assert(s =~= pre2 + enc_list(tail) + seq![']'] + rest);
        assert(forall|k: int| 0 <= k < tail.len() ==> task_v_valid(#[trigger] tail[k]));
        lemma_parse_tasks_at(pre2, tail, rest, acc.push(t0));
        assert(acc.push(t0) + tail =~= acc + ts);
        assert(parse_tasks(s, j + 1, acc.push(t0)) == Some(
            (acc + ts, pre.len() + enc_list(ts).len() + 1int),
        ));
    }
}

/// The round trip of the record format: decoding what was encoded gives
/// back exactly the encoded collection, for every collection of valid
/// tasks.
pub proof fn lemma_round_trip(ts: Seq<TaskV>)
    requires
        forall|k: int| 0 <= k < ts.len() ==> task_v_valid(#[trigger] ts[k]),
    ensures
        spec_decode(spec_encode(ts)) == Some(ts),
{
    reveal_strlit("{\"due_date\":");
    let s = spec_encode(ts);
    assert(s[0] == '[');
    assert(!is_ws('['));
    lemma_skip_ws_still(s, 0);
    if ts.len() == 0 {
        assert(enc_list(ts) == Seq::<char>::empty());
        assert(s.len() == 2);
        assert(s[1] == ']');
        assert(!is_ws(']'));
        lemma_skip_ws_still(s, 1);
        lemma_skip_ws_still(s, 2);
        assert(spec_decode(s) == Some(Seq::<TaskV>::empty()));
        assert(Seq::<TaskV>::empty() =~= ts);
    } else {
        assert(enc_list(ts)[0] == enc_task(ts[0])[0]) by {
            // whether the list holds one task or more, it opens with the first
            if ts.len() == 1 {
            } else {
            }
        }
        assert(enc_task(ts[0])[0] == k_due()[0]);
        assert(s[1] == '{');
        assert(!is_ws('{'));
        lemma_skip_ws_still(s, 1);
        assert(s[1] != ']');
        assert(s =~= seq!['['] + enc_list(ts) + seq![']'] + Seq::<char>::empty());
        lemma_parse_tasks_at(seq!['['], ts, Seq::empty(), Seq::empty());
        assert(Seq::empty() + ts =~= ts);
        assert(parse_tasks(s, 1, Seq::empty()) == Some((ts, s.len() as int)));
        lemma_skip_ws_still(s, s.len() as int);
    }
}

} // verus!
