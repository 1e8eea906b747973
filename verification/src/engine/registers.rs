//! Register values at a line.

use crate::engine::session::{get_line, line_at, LineFact, TraceEngine};
use crate::engine::site::{is_hex_char, line_chars};
use crate::error::{is_unknown_session, TraceError};
use crate::foreign;
use crate::query::registers::{nearest_slot, RegCheckpoints, UNKNOWN_VALUE};
use crate::text::{chars_of, find_text, found, push_text, text_of, wide_address, wide_text};
use crate::types::{RegId, REG_COUNT};
use vstd::prelude::*;
use vstd::utf8::*;

verus! {

/// The registers at a line as they are shown.
#[derive(Debug, Clone, PartialEq, Eq)]
pub struct RegistersAt {
    /// Names and values; `?` stands for a value that the trace has not shown.
    pub registers: Vec<(String, String)>,
    pub pc: Option<String>,
    /// Names of the registers that the line changes, by the text of the line.
    pub changed: Option<String>,
    /// Names of the registers that the line reads.
    pub read: Option<String>,
}

// ---------------------------------------------------------------------------
// Names
// ---------------------------------------------------------------------------

/// The name of a register that is shown.
pub open spec fn reg_name(r: u8) -> Option<Seq<char>> {
    match r {
        0 => Some("X0"@),
        1 => Some("X1"@),
        2 => Some("X2"@),
        3 => Some("X3"@),
        4 => Some("X4"@),
        5 => Some("X5"@),
        6 => Some("X6"@),
        7 => Some("X7"@),
        8 => Some("X8"@),
        9 => Some("X9"@),
        10 => Some("X10"@),
        11 => Some("X11"@),
        12 => Some("X12"@),
        13 => Some("X13"@),
        14 => Some("X14"@),
        15 => Some("X15"@),
        16 => Some("X16"@),
        17 => Some("X17"@),
        18 => Some("X18"@),
        19 => Some("X19"@),
        20 => Some("X20"@),
        21 => Some("X21"@),
        22 => Some("X22"@),
        23 => Some("X23"@),
        24 => Some("X24"@),
        25 => Some("X25"@),
        26 => Some("X26"@),
        27 => Some("X27"@),
        28 => Some("X28"@),
        29 => Some("X29"@),
        30 => Some("X30"@),
        31 => Some("SP"@),
        65 => Some("NZCV"@),
        _ => None,
    }
}

/// The name of a register that is shown.
pub fn reg_id_to_name(r: RegId) -> (s: Option<&'static str>)
    ensures
        match reg_name(r.0) {
            Some(name) => s matches Some(text) && text@ == name,
            None => s is None,
        },
{
    match r.0 {
        0 => Some("X0"),
        1 => Some("X1"),
        2 => Some("X2"),
        3 => Some("X3"),
        4 => Some("X4"),
        5 => Some("X5"),
        6 => Some("X6"),
        7 => Some("X7"),
        8 => Some("X8"),
        9 => Some("X9"),
        10 => Some("X10"),
        11 => Some("X11"),
        12 => Some("X12"),
        13 => Some("X13"),
        14 => Some("X14"),
        15 => Some("X15"),
        16 => Some("X16"),
        17 => Some("X17"),
        18 => Some("X18"),
        19 => Some("X19"),
        20 => Some("X20"),
        21 => Some("X21"),
        22 => Some("X22"),
        23 => Some("X23"),
        24 => Some("X24"),
        25 => Some("X25"),
        26 => Some("X26"),
        27 => Some("X27"),
        28 => Some("X28"),
        29 => Some("X29"),
        30 => Some("X30"),
        31 => Some("SP"),
        65 => Some("NZCV"),
        _ => None,
    }
}

/// Number of registers that are shown.
pub const SHOWN_REGS: usize = 33;

/// The registers that are shown, in order: the general ones, the stack pointer
/// and the flags.
pub open spec fn shown_reg(i: int) -> u8 {
    if i < 32 {
        i as u8
    } else {
        65
    }
}

/// A value as it is shown.
pub open spec fn reg_value_text(v: u64) -> Seq<char> {
    if v == UNKNOWN_VALUE {
        "?"@
    } else {
        wide_text(v)
    }
}

// ---------------------------------------------------------------------------
// Values
// ---------------------------------------------------------------------------

/// Register values after the changes that a line shows.
pub open spec fn with_values(values: Seq<u64>, changes: Seq<(RegId, u64)>) -> Seq<u64>
    decreases changes.len(),
{
    if changes.len() == 0 {
        values
    } else {
        let earlier = with_values(values, changes.drop_last());
        let (reg, v) = changes.last();
        if reg.0 < values.len() {
            earlier.update(reg.0 as int, v)
        } else {
            earlier
        }
    }
}

/// Register values after the lines `first..end`.
pub open spec fn after_lines(
    values: Seq<u64>,
    lines: Option<Vec<LineFact>>,
    first: int,
    end: int,
) -> Seq<u64>
    decreases end - first,
{
    if end <= first {
        values
    } else {
        let earlier = after_lines(values, lines, first, end - 1);
        match line_at(lines, (end - 1) as u32) {
            Some(fact) => with_values(earlier, fact.reg_values@),
            None => earlier,
        }
    }
}

fn apply_values(values: &mut [u64; REG_COUNT], changes: &Vec<(RegId, u64)>)
    ensures
        final(values)@ == with_values(old(values)@, changes@),
{
    let ghost start = values@;
    let mut i: usize = 0;
    assert(changes@.take(0) =~= Seq::empty());
    while i < changes.len()
        invariant
            i <= changes@.len(),
            start.len() == REG_COUNT,
            values@ == with_values(start, changes@.take(i as int)),
        decreases changes@.len() - i,
    {
        let (reg, v) = changes[i];
        assert(changes@.take(i + 1).drop_last() =~= changes@.take(i as int));
        if (reg.0 as usize) < REG_COUNT {
            let ghost before = values@;
            values[reg.0 as usize] = v;
            assert(values@ =~= before.update(reg.0 as int, v));
        }
        i += 1;
    }
    assert(changes@.take(changes@.len() as int) =~= changes@);
}

fn replay(
    values: &mut [u64; REG_COUNT],
    lines: &Option<Vec<LineFact>>,
    first: u32,
    last: u32,
)
    requires
        first <= last,
    ensures
        final(values)@ == after_lines(old(values)@, *lines, first as int, last + 1),
{
    let ghost start = values@;
    let mut at: u64 = first as u64;
    while at <= last as u64
        invariant
            first <= at <= last + 1,
            values@ == after_lines(start, *lines, first as int, at as int),
        decreases last + 1 - at,
    {
        if let Some(fact) = get_line(lines, at as u32) {
            apply_values(values, &fact.reg_values);
        }
        at += 1;
    }
}

/// The values at a line: those of the nearest snapshot and what the lines from
/// there on change.
pub open spec fn values_at(c: RegCheckpoints, lines: Option<Vec<LineFact>>, seq: u32) -> Seq<u64> {
    let slot = nearest_slot(c@.len() as int, c.interval, seq);
    after_lines(c@[slot], lines, slot * c.interval, seq + 1)
}

/// Names and values of the registers that are shown.
pub open spec fn shows_registers(r: Seq<(String, String)>, values: Seq<u64>) -> bool {
    &&& r.len() == SHOWN_REGS
    &&& forall|i: int|
        #![trigger r[i]]
        0 <= i < SHOWN_REGS ==> Some(r[i].0@) == reg_name(shown_reg(i)) && r[i].1@
            == reg_value_text(values[shown_reg(i) as int])
}

fn register_list(values: &[u64; REG_COUNT]) -> (r: Vec<(String, String)>)
    ensures
        shows_registers(r@, values@),
{
    let mut r: Vec<(String, String)> = Vec::new();
    let mut i: usize = 0;
    while i < SHOWN_REGS
        invariant
            i <= SHOWN_REGS,
            r@.len() == i,
            forall|k: int|
                #![trigger r@[k]]
                0 <= k < i ==> Some(r@[k].0@) == reg_name(shown_reg(k)) && r@[k].1@
                    == reg_value_text(values@[shown_reg(k) as int]),
        decreases SHOWN_REGS - i,
    {
        let slot: u8 = if i < 32 {
            i as u8
        } else {
            65
        };
        let v: u64 = values[slot as usize];
        let text = if v == UNKNOWN_VALUE {
            "?".to_owned()
        } else {
            wide_address(v)
        };
        if let Some(name) = reg_id_to_name(RegId(slot)) {
            r.push((name.to_owned(), text));
        }
        i += 1;
    }
    r
}

// ---------------------------------------------------------------------------
// The program counter
// ---------------------------------------------------------------------------

/// The value of a hexadecimal digit.
pub open spec fn hex_char_value(c: char) -> nat {
    if '0' <= c <= '9' {
        (c as int - '0' as int) as nat
    } else if 'a' <= c <= 'f' {
        (c as int - 'a' as int + 10) as nat
    } else {
        (c as int - 'A' as int + 10) as nat
    }
}

/// The number that hexadecimal digits stand for.
pub open spec fn hex_value(s: Seq<char>) -> nat
    decreases s.len(),
{
    if s.len() == 0 {
        0
    } else {
        hex_value(s.drop_last()) * 16 + hex_char_value(s.last())
    }
}

/// Nothing but hexadecimal digits, and at least one.
pub open spec fn all_hex(s: Seq<char>) -> bool {
    s.len() > 0 && forall|i: int| 0 <= i < s.len() ==> is_hex_char(#[trigger] s[i])
}

/// What follows a plus sign, if there is one.
pub open spec fn unsigned(s: Seq<char>) -> Seq<char> {
    if s.len() > 0 && s[0] == '+' {
        s.skip(1)
    } else {
        s
    }
}

/// A number in hexadecimal; a plus sign may stand before it.
pub open spec fn parsed_hex(s: Seq<char>) -> Option<u64> {
    let digits = unsigned(s);
    if all_hex(digits) && hex_value(digits) <= u64::MAX {
        Some(hex_value(digits) as u64)
    } else {
        None
    }
}

proof fn lemma_hex_value_grows(s: Seq<char>, n: int)
    requires
        0 <= n <= s.len(),
    ensures
        hex_value(s.take(n)) <= hex_value(s),
    decreases s.len(),
{
    if n < s.len() {
        lemma_hex_value_grows(s.drop_last(), n);
        assert(s.drop_last().take(n) =~= s.take(n));
    } else {
        assert(s.take(n) =~= s);
    }
}

/// The number in hexadecimal that the characters from `start` on write out.
pub fn parse_hex(v: &Vec<char>, start: usize) -> (r: Option<u64>)
    requires
        start <= v@.len(),
    ensures
        r == parsed_hex(v@.skip(start as int)),
{
    let ghost s = v@.skip(start as int);
    let mut i: usize = start;
    if i < v.len() && v[i] == '+' {
        i += 1;
    }
    let first: usize = i;
    let ghost digits = v@.skip(first as int);
    assert(first > start ==> digits =~= s.skip(1));
    if i == v.len() {
        return None;
    }
    let mut value: u64 = 0;
    assert(digits.take(0) =~= Seq::empty());
    while i < v.len()
        invariant
            start <= first <= i <= v@.len(),
            s == v@.skip(start as int),
            digits == v@.skip(first as int),
            digits == unsigned(s),
            digits.len() > 0,
            value == hex_value(digits.take(i - first)),
            forall|k: int| 0 <= k < i - first ==> is_hex_char(#[trigger] digits[k]),
        decreases v@.len() - i,
    {
        let c: char = v[i];
        assert(digits[i - first] == c);
        let d: u64 = if '0' <= c && c <= '9' {
            c as u64 - '0' as u64
        } else if 'a' <= c && c <= 'f' {
            c as u64 - 'a' as u64 + 10
        } else if 'A' <= c && c <= 'F' {
            c as u64 - 'A' as u64 + 10
        } else {
            assert(!is_hex_char(digits[i - first]));
            return None;
        };
        proof {
            assert(digits.take(i - first + 1).drop_last() =~= digits.take(i - first));
            lemma_hex_value_grows(digits, i - first + 1);
        }
        if value > (0xFFFF_FFFF_FFFF_FFFF - d) / 16 {
            return None;
        }
        value = value * 16 + d;
        i += 1;
    }
    assert(digits.take(digits.len() as int) =~= digits);
    Some(value)
}

/// An address as it is shown: in full width if it is a number after `0x`, else
/// as it stands.
pub open spec fn pc_text(address: Seq<char>) -> Seq<char> {
    if address.len() >= 2 && address[0] == '0' && (address[1] == 'x' || address[1] == 'X') {
        match parsed_hex(address.skip(2)) {
            Some(v) => wide_text(v),
            None => address,
        }
    } else {
        address
    }
}

/// An address as it is shown.
pub fn pc_display(address: &str) -> (s: String)
    ensures
        s@ == pc_text(address@),
{
    let v = chars_of(address);
    if v.len() >= 2 && v[0] == '0' && (v[1] == 'x' || v[1] == 'X') {
        if let Some(value) = parse_hex(&v, 2) {
            return wide_address(value);
        }
    }
    address.to_owned()
}

// ---------------------------------------------------------------------------
// Changed and read registers
// ---------------------------------------------------------------------------

/// White space, as Unicode has it.
pub open spec fn is_white(c: char) -> bool {
    let n = c as u32;
    ||| 0x09 <= n <= 0x0D
    ||| n == 0x20
    ||| n == 0x85
    ||| n == 0xA0
    ||| n == 0x1680
    ||| 0x2000 <= n <= 0x200A
    ||| n == 0x2028
    ||| n == 0x2029
    ||| n == 0x202F
    ||| n == 0x205F
    ||| n == 0x3000
}

fn white(c: char) -> (b: bool)
    ensures
        b == is_white(c),
{
    let n: u32 = c as u32;
    (0x09 <= n && n <= 0x0D) || n == 0x20 || n == 0x85 || n == 0xA0 || n == 0x1680 || (0x2000 <= n
        && n <= 0x200A) || n == 0x2028 || n == 0x2029 || n == 0x202F || n == 0x205F || n == 0x3000
}

/// Where the word that begins at `i` ends.
pub open spec fn word_end(s: Seq<char>, i: int) -> int
    decreases s.len() - i,
{
    if i < 0 || i >= s.len() || is_white(s[i]) {
        i
    } else {
        word_end(s, i + 1)
    }
}

proof fn lemma_word_end(s: Seq<char>, i: int)
    requires
        0 <= i <= s.len(),
    ensures
        i <= word_end(s, i) <= s.len(),
        i < s.len() && !is_white(s[i]) ==> i < word_end(s, i),
    decreases s.len() - i,
{
    if i < s.len() && !is_white(s[i]) {
        lemma_word_end(s, i + 1);
    }
}

/// What stands before the first equals sign of each word that has one, from
/// place `i` on.
pub open spec fn names_from(s: Seq<char>, i: int) -> Seq<Seq<char>>
    decreases s.len() - i,
    when 0 <= i
    via names_from_decreases
{
    if i >= s.len() {
        Seq::empty()
    } else if is_white(s[i]) {
        names_from(s, i + 1)
    } else {
        let end = word_end(s, i);
        let word = s.subrange(i, end);
        let rest = names_from(s, end);
        match found(word, "="@) {
            Some(eq) => seq![word.take(eq)] + rest,
            None => rest,
        }
    }
}

#[via_fn]
proof fn names_from_decreases(s: Seq<char>, i: int) {
    if i < s.len() {
        lemma_word_end(s, i);
    }
}

/// Where the changes of a line begin: after the first double arrow, else after
/// the first arrow.
pub open spec fn changes_start(s: Seq<char>) -> Option<int> {
    match found(s, " => "@) {
        Some(i) => Some(i + 4),
        None => match found(s, " -> "@) {
            Some(i) => Some(i + 4),
            None => None,
        },
    }
}

/// The names of the registers that a line changes, as the line writes them.
pub open spec fn changed_names(s: Seq<char>) -> Seq<Seq<char>> {
    match changes_start(s) {
        Some(i) => names_from(s, i),
        None => Seq::empty(),
    }
}

pub open spec fn string_views(s: Seq<String>) -> Seq<Seq<char>> {
    s.map_values(|t: String| t@)
}

fn collect_names(v: &Vec<char>, start: usize) -> (names: Vec<String>)
    requires
        start <= v@.len(),
    ensures
        string_views(names@) == names_from(v@, start as int),
{
    let ghost s = v@;
    let mut names: Vec<String> = Vec::new();
    let mut i: usize = start;
    assert(string_views(names@) + names_from(s, start as int) =~= names_from(s, start as int));
    while i < v.len()
        invariant
            start <= i <= v@.len(),
            s == v@,
            names_from(s, start as int) == string_views(names@) + names_from(s, i as int),
        decreases v@.len() - i,
    {
        if white(v[i]) {
            i += 1;
        } else {
            let first: usize = i;
            proof {
                lemma_word_end(s, first as int);
            }
            while i < v.len() && !white(v[i])
                invariant
                    first <= i <= v@.len(),
                    s == v@,
                    word_end(s, first as int) == word_end(s, i as int),
                decreases v@.len() - i,
            {
                i += 1;
            }
            let ghost word = s.subrange(first as int, i as int);
            let word_text = text_of(v, first, i);
            let word_chars = chars_of(word_text.as_str());
            let ghost before = string_views(names@);
            let ghost rest = names_from(s, i as int);
            match find_text(&word_chars, "=", 0) {
                Some(eq) => {
                    let name = text_of(&word_chars, 0, eq);
                    assert(name@ =~= word.take(eq as int));
                    names.push(name);
                    assert(string_views(names@) =~= before.push(name@));
                    assert(before + (seq![name@] + rest) =~= before.push(name@) + rest);
                },
                None => {},
            }
        }
    }
    assert(string_views(names@) + names_from(s, v@.len() as int) =~= string_views(names@));
    names
}

/// The names of the registers that a line changes, as the line writes them.
pub fn changed_registers(line: &str) -> (names: Vec<String>)
    ensures
        string_views(names@) == changed_names(line@),
{
    proof {
        reveal_strlit(" => ");
        reveal_strlit(" -> ");
    }
    let v = chars_of(line);
    let len: usize = v.len();
    if let Some(i) = find_text(&v, " => ", 0) {
        assert(i + 4 <= len);
        return collect_names(&v, i + 4);
    }
    if let Some(i) = find_text(&v, " -> ", 0) {
        assert(i + 4 <= len);
        return collect_names(&v, i + 4);
    }
    let names: Vec<String> = Vec::new();
    assert(string_views(names@) =~= Seq::empty());
    names
}

/// Names with commas between them.
pub open spec fn joined_names(names: Seq<Seq<char>>) -> Seq<char>
    decreases names.len(),
{
    if names.len() == 0 {
        Seq::empty()
    } else if names.len() == 1 {
        names[0]
    } else {
        joined_names(names.drop_last()) + ","@ + names.last()
    }
}

/// Names with commas between them, if there are any.
pub fn join_names(names: &Vec<String>) -> (r: Option<String>)
    ensures
        if names@.len() == 0 {
            r is None
        } else {
            r matches Some(s) && s@ == joined_names(string_views(names@))
        },
{
    if names.len() == 0 {
        return None;
    }
    let ghost all = string_views(names@);
    let mut s = names[0].clone();
    assert(all.take(1).len() == 1 && all.take(1)[0] == all[0]);
    let mut i: usize = 1;
    while i < names.len()
        invariant
            1 <= i <= names@.len(),
            all == string_views(names@),
            s@ == joined_names(all.take(i as int)),
        decreases names@.len() - i,
    {
        push_text(&mut s, ",");
        push_text(&mut s, names[i].as_str());
        assert(all.take(i + 1).drop_last() =~= all.take(i as int));
        assert(all.take(i + 1).last() == names@[i as int]@);
        i += 1;
    }
    assert(all.take(all.len() as int) =~= all);
    Some(s)
}

/// Names in upper case.
pub open spec fn upper_names(names: Seq<Seq<char>>) -> Seq<Seq<char>> {
    names.map_values(|n: Seq<char>| foreign::uppercase_text(n))
}

fn upper(names: &Vec<String>) -> (r: Vec<String>)
    ensures
        string_views(r@) == upper_names(string_views(names@)),
{
    let mut r: Vec<String> = Vec::new();
    let mut i: usize = 0;
    while i < names.len()
        invariant
            i <= names@.len(),
            r@.len() == i,
            forall|k: int|
                #![trigger r@[k]]
                0 <= k < i ==> r@[k]@ == foreign::uppercase_text(names@[k]@),
        decreases names@.len() - i,
    {
        r.push(foreign::to_uppercase(names[i].as_str()));
        i += 1;
    }
    assert(string_views(r@) =~= upper_names(string_views(names@)));
    r
}

/// The names of those registers that have one.
pub open spec fn reg_names(regs: Seq<RegId>) -> Seq<Seq<char>>
    decreases regs.len(),
{
    if regs.len() == 0 {
        Seq::empty()
    } else {
        let earlier = reg_names(regs.drop_last());
        match reg_name(regs.last().0) {
            Some(name) => earlier.push(name),
            None => earlier,
        }
    }
}

fn names_of(regs: &Vec<RegId>) -> (names: Vec<String>)
    ensures
        string_views(names@) == reg_names(regs@),
{
    let mut names: Vec<String> = Vec::new();
    let mut i: usize = 0;
    assert(regs@.take(0) =~= Seq::empty());
    assert(string_views(names@) =~= Seq::empty());
    while i < regs.len()
        invariant
            i <= regs@.len(),
            string_views(names@) == reg_names(regs@.take(i as int)),
        decreases regs@.len() - i,
    {
        assert(regs@.take(i + 1).drop_last() =~= regs@.take(i as int));
        let ghost before = string_views(names@);
        if let Some(name) = reg_id_to_name(regs[i]) {
            names.push(name.to_owned());
            assert(string_views(names@) =~= before.push(name@));
        }
        i += 1;
    }
    assert(regs@.take(regs@.len() as int) =~= regs@);
    names
}

/// Names with commas between them, if there are any.
pub open spec fn name_list(names: Seq<Seq<char>>) -> Option<Seq<char>> {
    if names.len() == 0 {
        None
    } else {
        Some(joined_names(names))
    }
}

pub open spec fn opt_view(s: Option<String>) -> Option<Seq<char>> {
    match s {
        Some(s) => Some(s@),
        None => None,
    }
}

/// The registers at a line. What is read off the text of the line needs it to
/// be text.
pub open spec fn is_registers(
    d: RegistersAt,
    c: RegCheckpoints,
    lines: Option<Vec<LineFact>>,
    seq: u32,
) -> bool {
    &&& shows_registers(d.registers@, values_at(c, lines, seq))
    &&& opt_view(d.pc) == (match line_at(lines, seq) {
        Some(fact) => match fact.address {
            Some(address) => Some(pc_text(address@)),
            None => None,
        },
        None => None,
    })
    &&& opt_view(d.changed) == (match line_at(lines, seq) {
        Some(fact) => match line_chars(fact.text@) {
            Some(text) => name_list(upper_names(changed_names(text))),
            None => None,
        },
        None => None,
    })
    &&& opt_view(d.read) == (match line_at(lines, seq) {
        Some(fact) => match line_chars(fact.text@) {
            Some(_) => name_list(reg_names(fact.read_regs@)),
            None => None,
        },
        None => None,
    })
}

fn registers_at(
    values: &[u64; REG_COUNT],
    lines: &Option<Vec<LineFact>>,
    seq: u32,
    Ghost(c): Ghost<RegCheckpoints>,
) -> (d: RegistersAt)
    requires
        values@ == values_at(c, *lines, seq),
    ensures
        is_registers(d, c, *lines, seq),
{
    let registers = register_list(values);
    let mut pc: Option<String> = None;
    let mut changed: Option<String> = None;
    let mut read: Option<String> = None;
    if let Some(fact) = get_line(lines, seq) {
        if let Some(address) = &fact.address {
            pc = Some(pc_display(address.as_str()));
        }
        if let Some(text) = foreign::text_from_utf8(fact.text.as_slice()) {
            proof {
                encode_utf8_decode_utf8(text@);
            }
            let plain = changed_registers(text);
            let names = upper(&plain);
            assert(string_views(names@).len() == names@.len());
            changed = join_names(&names);
            let reads = names_of(&fact.read_regs);
            assert(string_views(reads@).len() == reads@.len());
            read = join_names(&reads);
        }
    }
    RegistersAt { registers, pc, changed, read }
}

/// `无可用检查点`
pub open spec fn is_no_checkpoint(e: TraceError) -> bool {
    e matches TraceError::Internal(s) && s@ == "无可用检查点"@
}

impl TraceEngine {
    /// The registers at a line.
    pub fn get_registers_at(&self, session_id: &str, seq: u32) -> (r: Result<
        RegistersAt,
        TraceError,
    >)
        requires
            self.session(session_id@) matches Some(s) ==> (s.reg_checkpoints matches Some(c)
                ==> c.interval > 0),
        ensures
            match self.session(session_id@) {
                None => r matches Err(e) && is_unknown_session(e, session_id@),
                Some(s) => match s.reg_checkpoints {
                    None => r matches Err(TraceError::IndexNotReady),
                    Some(c) => if s.lines is None {
                        r matches Err(TraceError::IndexNotReady)
                    } else if c@.len() == 0 {
                        r matches Err(e) && is_no_checkpoint(e)
                    } else {
                        r matches Ok(d) && is_registers(d, c, s.lines, seq)
                    },
                },
            },
    {
        let state = match self.get_handle(session_id) {
            Ok(state) => state,
            Err(e) => {
                return Err(e);
            },
        };
        let checkpoints: &RegCheckpoints = match &state.reg_checkpoints {
            Some(c) => c,
            None => {
                return Err(TraceError::IndexNotReady);
            },
        };
        if state.lines.is_none() {
            return Err(TraceError::IndexNotReady);
        }
        match checkpoints.nearest_before(seq) {
            Some((first, snapshot)) => {
                let mut values: [u64; REG_COUNT] = *snapshot;
                replay(&mut values, &state.lines, first, seq);
                Ok(registers_at(&values, &state.lines, seq, Ghost(*checkpoints)))
            },
            None => Err(TraceError::Internal("无可用检查点".to_owned())),
        }
    }
}

} // verus!
