pub mod codec;
pub mod compression_task;
pub mod data_manager;
pub mod write_consumer;

use vstd::prelude::*;

verus! {

/// The decimal digit `d` as a character.
pub open spec fn digit_char(d: nat) -> char {
    ((d + 48) as u8) as char
}

/// `n` written in decimal, without leading zeros.
pub open spec fn decimal(n: nat) -> Seq<char>
    decreases n,
{
    if n < 10 {
        seq![digit_char(n)]
    } else {
        decimal(n / 10).push(digit_char(n % 10))
    }
}

/// Name of the log file with id `id` under `dir`: `<dir>/learn_db_<id>.log`.
pub open spec fn log_file_name(id: u32, dir: Seq<char>) -> Seq<char> {
    dir + "/"@ + "learn_db_"@ + decimal(id as nat) + ".log"@
}

/// Name of the side-car index of log file `id`: `<dir>/learn_db_<id>.index`.
pub open spec fn index_file_name(id: u32, dir: Seq<char>) -> Seq<char> {
    dir + "/"@ + "learn_db_"@ + decimal(id as nat) + ".index"@
}

/// Name of the side-car index while it is written: `<dir>/learn_db_<id>.index.tmp`.
pub open spec fn tmp_index_file_name(id: u32, dir: Seq<char>) -> Seq<char> {
    index_file_name(id, dir) + ".tmp"@
}

/// Whether a file name has the shape of a log file name.
pub open spec fn is_log_name(name: Seq<char>) -> bool {
    &&& name.len() >= 13
    &&& name.subrange(0, 9) == "learn_db_"@
    &&& name.subrange(name.len() - 4, name.len() as int) == ".log"@
}

pub open spec fn is_digit(c: char) -> bool {
    '0' <= c && c <= '9'
}

/// Value of a run of decimal digits.
pub open spec fn digits_value(s: Seq<char>) -> nat
    decreases s.len(),
{
    if s.len() == 0 {
        0
    } else {
        digits_value(s.drop_last()) * 10 + ((s.last() as u32 - 48) as nat)
    }
}

/// A `u32` read in decimal the way `u32::from_str` reads it: an optional `+`, then at least
/// one digit, and a value that fits.
pub open spec fn parse_u32(s: Seq<char>) -> Option<u32> {
    let t = unsigned_part(s);
    if t.len() > 0 && all_digits(t) && digits_value(t) <= u32::MAX {
        Some(digits_value(t) as u32)
    } else {
        None
    }
}

/// `s` without its leading `+`, if it has one.
pub open spec fn unsigned_part(s: Seq<char>) -> Seq<char> {
    if s.len() > 0 && s[0] == '+' {
        s.drop_first()
    } else {
        s
    }
}

pub open spec fn all_digits(t: Seq<char>) -> bool {
    forall|i: int| 0 <= i < t.len() ==> is_digit(#[trigger] t[i])
}

/// The id that a log file name carries, or 0 where there is none.
pub open spec fn file_id_of(name: Seq<char>) -> u32 {
    if is_log_name(name) {
        match parse_u32(name.subrange(9, name.len() - 4)) {
            Some(v) => v,
            None => 0,
        }
    } else {
        0
    }
}

fn digit_str(d: u32) -> (r: &'static str)
    requires
        d < 10,
    ensures
        r@ == seq![digit_char(d as nat)],
{
    proof {
        reveal_strlit("0");
        reveal_strlit("1");
        reveal_strlit("2");
        reveal_strlit("3");
        reveal_strlit("4");
        reveal_strlit("5");
        reveal_strlit("6");
        reveal_strlit("7");
        reveal_strlit("8");
        reveal_strlit("9");
    }
    let r = match d {
        0 => "0",
        1 => "1",
        2 => "2",
        3 => "3",
        4 => "4",
        5 => "5",
        6 => "6",
        7 => "7",
        8 => "8",
        _ => "9",
    };
    assert(r@ =~= seq![digit_char(d as nat)]);
    r
}

fn append_decimal(s: &mut String, n: u32)
    ensures
        final(s)@ == old(s)@ + decimal(n as nat),
    decreases n,
{
    if n >= 10 {
        append_decimal(s, n / 10);
    }
    s.append(digit_str(n % 10));
    assert(final(s)@ =~= old(s)@ + decimal(n as nat));
}

fn file_name(id: u32, dir: &String, suffix: &str) -> (r: String)
    ensures
        r@ == dir@ + "/"@ + "learn_db_"@ + decimal(id as nat) + suffix@,
{
    let mut s = dir.clone();
    s.append("/");
    s.append("learn_db_");
    append_decimal(&mut s, id);
    s.append(suffix);
    s
}

/// The log file name for `id` under `dir`.
pub fn get_log_file_name(id: u32, dir: &String) -> (r: String)
    ensures
        r@ == log_file_name(id, dir@),
{
    file_name(id, dir, ".log")
}

/// The side-car index file name for `id` under `dir`.
pub fn get_index_file_name(id: u32, dir: &String) -> (r: String)
    ensures
        r@ == index_file_name(id, dir@),
{
    file_name(id, dir, ".index")
}

/// The name a side-car index is written under before it is renamed into place.
pub fn get_tmp_index_file_name(id: u32, dir: &String) -> (r: String)
    ensures
        r@ == tmp_index_file_name(id, dir@),
{
    let mut s = file_name(id, dir, ".index");
    s.append(".tmp");
    s
}

/// Whether `s` holds `p` starting at char `at`.
fn holds_at(s: &str, at: usize, p: &str) -> (r: bool)
    requires
        at + p@.len() <= s@.len(),
    ensures
        r == (s@.subrange(at as int, at + p@.len()) == p@),
{
    let _len = s.unicode_len();
    let n = p.unicode_len();
    let mut i: usize = 0;
    while i < n
        invariant
            n == p@.len(),
            _len == s@.len(),
            at + n <= s@.len(),
            i <= n,
            s@.subrange(at as int, at + i) == p@.subrange(0, i as int),
        decreases n - i,
    {
        if s.get_char(at + i) != p.get_char(i) {
            assert(s@.subrange(at as int, at + n)[i as int] != p@[i as int]);
            return false;
        }
        assert(s@.subrange(at as int, at + i + 1) =~= p@.subrange(0, i + 1));
        i = i + 1;
    }
    assert(p@.subrange(0, n as int) =~= p@);
    true
}

/// Whether `file_name` names a log file: `learn_db_` first and `.log` last.
pub fn is_log_file(file_name: &str) -> (r: bool)
    ensures
        r == is_log_name(file_name@),
{
    proof {
        reveal_strlit("learn_db_");
        reveal_strlit(".log");
    }
    let n = file_name.unicode_len();
    if n < 13 {
        return false;
    }
    holds_at(file_name, 0, "learn_db_") && holds_at(file_name, n - 4, ".log")
}

/// Reads a `u32` in decimal, as `u32::from_str` does.
pub fn parse_decimal_u32(s: &str) -> (r: Option<u32>)
    ensures
        r == parse_u32(s@),
{
    let n = s.unicode_len();
    let mut i: usize = 0;
    if n > 0 && s.get_char(0) == '+' {
        i = 1;
    }
    let ghost t = unsigned_part(s@);
    let start = i;
    assert(t =~= s@.subrange(start as int, n as int));
    if i == n {
        return None;
    }
    let mut v: u32 = 0;
    while i < n
        invariant
            n == s@.len(),
            start <= i <= n,
            t == unsigned_part(s@),
            t =~= s@.subrange(start as int, n as int),
            forall|j: int| 0 <= j < i - start ==> is_digit(#[trigger] t[j]),
            v as nat == digits_value(t.subrange(0, i - start)),
        decreases n - i,
    {
        let c = s.get_char(i);
        assert(c == t[i - start]);
        if !('0' <= c && c <= '9') {
            let ghost j: int = i - start;
            proof {
                lemma_parse_rejects(s@, t, j);
            }
            return None;
        }
        let d = (c as u32) - 48;
        let ghost pre = t.subrange(0, i + 1 - start);
        assert(pre.drop_last() =~= t.subrange(0, i - start));
        assert(pre.last() == c);
        assert(digits_value(pre) == v * 10 + d);
        if v > 429496729 || (v == 429496729 && d > 5) {
            proof {
                if all_digits(t) {
                    lemma_digits_value_prefix_grows(t, (i + 1 - start) as int);
                    lemma_parse_rejects(s@, t, 0);
                } else {
                    let j = choose|j: int| 0 <= j < t.len() && !is_digit(#[trigger] t[j]);
                    lemma_parse_rejects(s@, t, j);
                }
            }
            return None;
        }
        v = v * 10 + d;
        i = i + 1;
    }
    assert(t.subrange(0, n - start) =~= t);
    Some(v)
}

proof fn lemma_parse_rejects(s: Seq<char>, t: Seq<char>, j: int)
    requires
        t == unsigned_part(s),
        (0 <= j < t.len() && !is_digit(t[j])) || digits_value(t) > u32::MAX,
    ensures
        parse_u32(s) is None,
{
    if 0 <= j < t.len() && !is_digit(t[j]) {
        assert(!all_digits(t));
    }
}

/// Appending digits never makes the value smaller.
proof fn lemma_digits_value_prefix_grows(t: Seq<char>, m: int)
    requires
        0 <= m <= t.len(),
        forall|j: int| 0 <= j < t.len() ==> is_digit(#[trigger] t[j]),
    ensures
        digits_value(t.subrange(0, m)) <= digits_value(t),
    decreases t.len(),
{
    if m < t.len() {
        assert(t.drop_last().subrange(0, m) =~= t.subrange(0, m));
        lemma_digits_value_prefix_grows(t.drop_last(), m);
    } else {
        assert(t.subrange(0, m) =~= t);
    }
}

/// The id carried by a log file name, or 0 where the name is not a log file name or the
/// id does not read as a `u32`.
pub fn get_file_id_from_path(file_name: &str) -> (r: u32)
    ensures
        r == file_id_of(file_name@),
{
    if !is_log_file(file_name) {
        return 0;
    }
    let n = file_name.unicode_len();
    let middle = file_name.substring_char(9, n - 4);
    match parse_decimal_u32(middle) {
        Some(v) => v,
        None => 0,
    }
}

/// The id the writer starts with: one past the largest id found, or 1 when there is none.
pub fn calc_max_file_id(file_ids: &Vec<u32>) -> (r: u32)
    requires
        forall|i: int| 0 <= i < file_ids@.len() ==> #[trigger] file_ids@[i] < u32::MAX,
    ensures
        file_ids@.len() == 0 ==> r == 1,
        file_ids@.len() > 0 ==> (exists|i: int| 0 <= i < file_ids@.len() && r == #[trigger] file_ids@[i] + 1),
        forall|i: int| 0 <= i < file_ids@.len() ==> #[trigger] file_ids@[i] < r,
{
    if file_ids.len() == 0 {
        return 1;
    }
    let mut max: u32 = file_ids[0];
    let mut i: usize = 1;
    while i < file_ids.len()
        invariant
            1 <= i <= file_ids@.len(),
            exists|j: int| 0 <= j < i && max == #[trigger] file_ids@[j],
            forall|j: int| 0 <= j < i ==> #[trigger] file_ids@[j] <= max,
            forall|j: int| 0 <= j < file_ids@.len() ==> #[trigger] file_ids@[j] < u32::MAX,
        decreases file_ids@.len() - i,
    {
        if file_ids[i] > max {
            max = file_ids[i];
        }
        i = i + 1;
    }
    max + 1
}

} // verus!
