use vstd::prelude::*;
use vstd::string::*;

use crate::program_errors::ProgramError;
use crate::save_information::SaveInformation;
use crate::save_type::SaveType;

verus! {

// ---------------------------------------------------------------------------
// Character classes and positions
// ---------------------------------------------------------------------------
/// Code point of `c` with ASCII upper-case letters folded to lower case.
pub open spec fn lower_code(c: char) -> int {
    if 65 <= c as int && c as int <= 90 {
        c as int + 32
    } else {
        c as int
    }
}

/// `pat` occurs at position `i` of `name`, comparing case-insensitively on
/// `name`'s side (`pat` is taken as already lower case).
pub open spec fn matches_ci_at(name: Seq<char>, pat: Seq<char>, i: int) -> bool {
    forall|k: int| 0 <= k < pat.len() ==> lower_code(name[i + k]) == pat[k] as int
}

/// `pat` occurs somewhere in `name`, case-insensitively.
pub open spec fn contains_ci(name: Seq<char>, pat: Seq<char>) -> bool {
    exists|i: int| 0 <= i && i + pat.len() <= name.len() && matches_ci_at(name, pat, i)
}

/// The index of the first occurrence of `c` in `s`, or `s.len()` when `c`
/// does not occur.
pub open spec fn first_index_of(s: Seq<char>, c: char) -> int
    decreases s.len(),
{
    if s.len() == 0 {
        0
    } else if s[0] == c {
        0
    } else {
        1 + first_index_of(s.drop_first(), c)
    }
}

/// The index of the last occurrence of `c` in `s`, or `-1` when `c` does not
/// occur.
pub open spec fn last_index_of(s: Seq<char>, c: char) -> int
    decreases s.len(),
{
    if s.len() == 0 {
        -1
    } else if s[s.len() - 1] == c {
        s.len() - 1
    } else {
        last_index_of(s.drop_last(), c)
    }
}

pub proof fn lemma_first_index_of(s: Seq<char>, c: char)
    ensures
        0 <= first_index_of(s, c) <= s.len(),
        first_index_of(s, c) < s.len() ==> s[first_index_of(s, c)] == c,
        forall|j: int| 0 <= j < first_index_of(s, c) ==> s[j] != c,
        (first_index_of(s, c) == s.len()) <==> (forall|j: int| 0 <= j < s.len() ==> s[j] != c),
    decreases s.len(),
{
    if s.len() == 0 {
    } else if s[0] == c {
    } else {
        lemma_first_index_of(s.drop_first(), c);
        let fi = first_index_of(s, c);
        assert forall|j: int| 0 <= j < fi implies s[j] != c by {
            if j > 0 {
                assert(s.drop_first()[j - 1] == s[j]);
            }
        }
        if fi == s.len() {
            assert forall|j: int| 0 <= j < s.len() implies s[j] != c by {
                if j > 0 {
                    assert(s.drop_first()[j - 1] == s[j]);
                }
            }
        }
    }
}

pub proof fn lemma_last_index_of(s: Seq<char>, c: char)
    ensures
        -1 <= last_index_of(s, c) < s.len(),
        last_index_of(s, c) >= 0 ==> s[last_index_of(s, c)] == c,
        forall|j: int| last_index_of(s, c) < j < s.len() ==> s[j] != c,
        (last_index_of(s, c) == -1) <==> (forall|j: int| 0 <= j < s.len() ==> s[j] != c),
    decreases s.len(),
{
    if s.len() == 0 {
    } else if s[s.len() - 1] == c {
    } else {
        lemma_last_index_of(s.drop_last(), c);
        let li = last_index_of(s, c);
        assert forall|j: int| li < j < s.len() implies s[j] != c by {
            if j < s.len() - 1 {
                assert(s.drop_last()[j] == s[j]);
            }
        }
        if li == -1 {
            assert forall|j: int| 0 <= j < s.len() implies s[j] != c by {
                if j < s.len() - 1 {
                    assert(s.drop_last()[j] == s[j]);
                }
            }
        }
    }
}

// ---------------------------------------------------------------------------
// Numerals
// ---------------------------------------------------------------------------
pub open spec fn is_digit(c: char) -> bool {
    48 <= c as int && c as int <= 57
}

pub open spec fn digit_of(c: char) -> int {
    c as int - 48
}

/// The number of leading digit characters of `s`.
pub open spec fn digit_prefix_len(s: Seq<char>) -> int
    decreases s.len(),
{
    if s.len() == 0 {
        0
    } else if !is_digit(s[0]) {
        0
    } else {
        1 + digit_prefix_len(s.drop_first())
    }
}

/// The value of a string of digit characters, read in base ten.
pub open spec fn digits_value(s: Seq<char>) -> int
    decreases s.len(),
{
    if s.len() == 0 {
        0
    } else {
        digits_value(s.drop_last()) * 10 + digit_of(s[s.len() - 1])
    }
}

pub proof fn lemma_digit_prefix_len(s: Seq<char>)
    ensures
        0 <= digit_prefix_len(s) <= s.len(),
        forall|j: int| 0 <= j < digit_prefix_len(s) ==> is_digit(s[j]),
        digit_prefix_len(s) < s.len() ==> !is_digit(s[digit_prefix_len(s)]),
    decreases s.len(),
{
    if s.len() == 0 {
    } else if !is_digit(s[0]) {
    } else {
        lemma_digit_prefix_len(s.drop_first());
        let d = digit_prefix_len(s);
        assert forall|j: int| 0 <= j < d implies is_digit(s[j]) by {
            if j > 0 {
                assert(s.drop_first()[j - 1] == s[j]);
            }
        }
        if d < s.len() {
            assert(s.drop_first()[d - 1] == s[d]);
        }
    }
}

pub proof fn lemma_digits_value_nonneg(s: Seq<char>)
    requires
        forall|j: int| 0 <= j < s.len() ==> is_digit(#[trigger] s[j]),
    ensures
        digits_value(s) >= 0,
    decreases s.len(),
{
    if s.len() > 0 {
        assert forall|j: int| 0 <= j < s.drop_last().len() implies is_digit(
            #[trigger] s.drop_last()[j],
        ) by {
            assert(s.drop_last()[j] == s[j]);
        }
        lemma_digits_value_nonneg(s.drop_last());
    }
}

/// Reading more digits never makes the value smaller.
pub proof fn lemma_digits_value_monotone(s: Seq<char>, i: int, j: int)
    requires
        0 <= i <= j <= s.len(),
        forall|k: int| 0 <= k < j ==> is_digit(#[trigger] s[k]),
    ensures
        digits_value(s.subrange(0, i)) <= digits_value(s.subrange(0, j)),
    decreases j - i,
{
    if i < j {
        let p = s.subrange(0, j);
        let q = s.subrange(0, j - 1);
        assert(p.drop_last() =~= q);
        assert forall|k: int| 0 <= k < q.len() implies is_digit(#[trigger] q[k]) by {
            assert(q[k] == s[k]);
        }
        lemma_digits_value_nonneg(q);
        assert(digits_value(p) == digits_value(q) * 10 + digit_of(s[j - 1]));
        assert(digits_value(q) * 10 >= digits_value(q)) by (nonlinear_arith)
            requires
                digits_value(q) >= 0,
        ;
        lemma_digits_value_monotone(s, i, j - 1);
    }
}

/// What reading a string as an unsigned 16-bit number produces, matching the
/// standard library's behaviour: an optional leading `+`, then at least one
/// digit, scanned left to right with the size check made at each digit.
#[derive(PartialEq, Eq, Structural)]
pub enum NumeralOutcome {
    Value(u16),
    EmptyInput,
    BadDigit,
    TooLarge,
}

pub open spec fn parse_u16(s: Seq<char>) -> NumeralOutcome {
    if s.len() == 0 {
        NumeralOutcome::EmptyInput
    } else {
        let body = if s[0] == '+' {
            s.drop_first()
        } else {
            s
        };
        if body.len() == 0 {
            NumeralOutcome::BadDigit
        } else {
            let d = digit_prefix_len(body);
            if digits_value(body.subrange(0, d)) > 65535 {
                NumeralOutcome::TooLarge
            } else if d < body.len() {
                NumeralOutcome::BadDigit
            } else {
                NumeralOutcome::Value(digits_value(body) as u16)
            }
        }
    }
}

// ---------------------------------------------------------------------------
// Category detection
// ---------------------------------------------------------------------------
fn lower_u32(c: char) -> (r: u32)
    ensures
        r == lower_code(c),
{
    let u = c as u32;
    if 65 <= u && u <= 90 {
        u + 32
    } else {
        u
    }
}

fn matches_ci_at_exec(s: &str, pat: &str, i: usize) -> (r: bool)
    requires
        i + pat@.len() <= s@.len(),
    ensures
        r == matches_ci_at(s@, pat@, i as int),
{
    let n = s.unicode_len();
    let m = pat.unicode_len();
    let mut k: usize = 0;
    while k < m
        invariant
            n == s@.len(),
            m == pat@.len(),
            i + m <= n,
            0 <= k <= m,
            forall|j: int| 0 <= j < k ==> lower_code(s@[i + j]) == pat@[j] as int,
        decreases m - k,
    {
        let a = lower_u32(s.get_char(i + k));
        let b = pat.get_char(k) as u32;
        if a != b {
            return false;
        }
        k += 1;
    }
    true
}

/// Whether `pat` (given in lower case) occurs in `s`, ignoring the case of
/// ASCII letters in `s`.
fn contains_ci_str(s: &str, pat: &str) -> (r: bool)
    ensures
        r == contains_ci(s@, pat@),
{
    let n = s.unicode_len();
    let m = pat.unicode_len();
    if m > n {
        return false;
    }
    let mut i: usize = 0;
    while i <= n - m
        invariant
            n == s@.len(),
            m == pat@.len(),
            m <= n,
            0 <= i <= n - m + 1,
            forall|j: int| 0 <= j < i ==> !matches_ci_at(s@, pat@, j),
        decreases n - m - i + 1,
    {
        if matches_ci_at_exec(s, pat, i) {
            return true;
        }
        i += 1;
    }
    false
}

/// The category encoded in a folder name: a case-insensitive occurrence of
/// "quicksave" anywhere in the name wins, then "autosave", else the name is
/// `Unrecognized`.  Detection never fails.
pub open spec fn spec_save_type(name: Seq<char>) -> SaveType {
    if contains_ci(name, "quicksave"@) {
        SaveType::Quick
    } else if contains_ci(name, "autosave"@) {
        SaveType::Auto
    } else {
        SaveType::Unrecognized
    }
}

pub fn save_type(folder_name: &str) -> (t: SaveType)
    ensures
        t == spec_save_type(folder_name@),
{
    if contains_ci_str(folder_name, "quicksave") {
        SaveType::Quick
    } else if contains_ci_str(folder_name, "autosave") {
        SaveType::Auto
    } else {
        SaveType::Unrecognized
    }
}

// ---------------------------------------------------------------------------
// Character-name extraction
// ---------------------------------------------------------------------------
/// The character name encoded in a folder name: everything before the first
/// `-`, which must exist and must not stand at index 0.
pub fn character_name(folder_name: &str) -> (r: Result<String, ProgramError>)
    ensures
        ({
            let s = folder_name@;
            let fi = first_index_of(s, '-');
            if 0 < fi < s.len() {
                r matches Ok(name) && name@ == s.subrange(0, fi)
            } else {
                (r matches Err(e) ==> e matches ProgramError::NameNotDetected(m) && m@
                    == "Could not detect character name"@) && r is Err
            }
        }),
{
    let n = folder_name.unicode_len();
    let mut i: usize = 0;
    while i < n
        invariant
            n == folder_name@.len(),
            0 <= i <= n,
            forall|j: int| 0 <= j < i ==> folder_name@[j] != '-',
        decreases n - i,
    {
        if folder_name.get_char(i) == '-' {
            proof {
                lemma_first_index_of(folder_name@, '-');
                assert(first_index_of(folder_name@, '-') == i);
            }
            if i == 0 {
                return Err(
                    ProgramError::NameNotDetected(("Could not detect character name").to_owned()),
                );
            }
            let name = folder_name.substring_char(0, i);
            return Ok(name.to_owned());
        }
        i += 1;
    }
    proof {
        lemma_first_index_of(folder_name@, '-');
    }
    Err(ProgramError::NameNotDetected(("Could not detect character name").to_owned()))
}

// ---------------------------------------------------------------------------
// Sequence-number extraction
// ---------------------------------------------------------------------------
fn parse_u16_str(s: &str) -> (r: NumeralOutcome)
    ensures
        r == parse_u16(s@),
{
    let n = s.unicode_len();
    if n == 0 {
        return NumeralOutcome::EmptyInput;
    }
    let start: usize = if s.get_char(0) == '+' {
        1
    } else {
        0
    };
    let ghost body = if s@[0] == '+' {
        s@.drop_first()
    } else {
        s@
    };
    proof {
        assert(body =~= s@.subrange(start as int, n as int));
    }
    if start == n {
        return NumeralOutcome::BadDigit;
    }
    let mut acc: u32 = 0;
    let mut k: usize = start;
    while k < n
        invariant
            n == s@.len(),
            n > 0,
            start <= k <= n,
            start == (if s@[0] == '+' {
                1int
            } else {
                0int
            }),
            body == s@.subrange(start as int, n as int),
            forall|j: int| 0 <= j < k - start ==> is_digit(#[trigger] body[j]),
            acc == digits_value(body.subrange(0, k - start)),
            acc <= 65535,
        decreases n - k,
    {
        let c = s.get_char(k);
        proof {
            assert(body[k - start] == s@[k as int]);
        }
        let u = c as u32;
        if u < 48 || u > 57 {
            proof {
                assert((if s@[0] == '+' {
                    s@.drop_first()
                } else {
                    s@
                }) =~= body);
                lemma_digit_prefix_len(body);
                assert(digit_prefix_len(body) == k - start);
            }
            return NumeralOutcome::BadDigit;
        }
        let d = u - 48;
        let next_acc = acc * 10 + d;
        if next_acc > 65535 {
            proof {
                assert((if s@[0] == '+' {
                    s@.drop_first()
                } else {
                    s@
                }) =~= body);
                let p1 = body.subrange(0, k - start + 1);
                assert(p1.drop_last() =~= body.subrange(0, k - start));
                assert(digits_value(p1) == next_acc);
                lemma_digit_prefix_len(body);
                assert(digit_prefix_len(body) >= k - start + 1);
                lemma_digits_value_monotone(body, k - start + 1, digit_prefix_len(body));
            }
            return NumeralOutcome::TooLarge;
        }
        proof {
            let p1 = body.subrange(0, k - start + 1);
            assert(p1.drop_last() =~= body.subrange(0, k - start));
            assert(digits_value(p1) == next_acc);
        }
        acc = next_acc;
        k += 1;
    }
    proof {
        assert(body.subrange(0, n - start) =~= body);
        lemma_digit_prefix_len(body);
        assert(digit_prefix_len(body) == body.len());
    }
    NumeralOutcome::Value(acc as u16)
}

/// The sequence number encoded in a folder name: the part after the last
/// `_`, read as an unsigned 16-bit number.  A name without any `_` is
/// rejected outright; a malformed or oversized numeral is reported with the
/// standard library's own wording.
pub fn save_number(folder_name: &str) -> (r: Result<u16, ProgramError>)
    ensures
        ({
            let s = folder_name@;
            let li = last_index_of(s, '_');
            if li < 0 {
                r matches Err(e) && e matches ProgramError::NotEnoughUnderscores(m) && m@
                    == "Did not find the correct number of underscores. Cannot continue with this save."@
            } else {
                match parse_u16(s.subrange(li + 1, s.len() as int)) {
                    NumeralOutcome::Value(v) => r matches Ok(num) && num == v,
                    NumeralOutcome::EmptyInput => r matches Err(e) && e
                        matches ProgramError::StringNotNumber(m) && m@
                        == "cannot parse integer from empty string"@,
                    NumeralOutcome::BadDigit => r matches Err(e) && e
                        matches ProgramError::StringNotNumber(m) && m@
                        == "invalid digit found in string"@,
                    NumeralOutcome::TooLarge => r matches Err(e) && e
                        matches ProgramError::StringNotNumber(m) && m@
                        == "number too large to fit in target type"@,
                }
            }
        }),
{
    let n = folder_name.unicode_len();
    let mut k: usize = n;
    let mut found = false;
    let mut last_us: usize = 0;
    while !found && k > 0
        invariant
            n == folder_name@.len(),
            0 <= k <= n,
            !found ==> forall|t: int| k <= t < n ==> folder_name@[t] != '_',
            found ==> last_us < n && folder_name@[last_us as int] == '_' && (forall|t: int|
                last_us < t < n ==> folder_name@[t] != '_'),
        decreases (if found {
            0int
        } else {
            k + 1
        }),
    {
        k -= 1;
        if folder_name.get_char(k) == '_' {
            found = true;
            last_us = k;
        }
    }
    if !found {
        proof {
            lemma_last_index_of(folder_name@, '_');
        }
        return Err(
            ProgramError::NotEnoughUnderscores(
                ("Did not find the correct number of underscores. Cannot continue with this save.").to_owned(),
            ),
        );
    }
    proof {
        lemma_last_index_of(folder_name@, '_');
        assert(last_index_of(folder_name@, '_') == last_us);
    }
    let seg = folder_name.substring_char(last_us + 1, n);
    match parse_u16_str(seg) {
        NumeralOutcome::Value(v) => Ok(v),
        NumeralOutcome::EmptyInput => Err(
            ProgramError::StringNotNumber(("cannot parse integer from empty string").to_owned()),
        ),
        NumeralOutcome::BadDigit => Err(
            ProgramError::StringNotNumber(("invalid digit found in string").to_owned()),
        ),
        NumeralOutcome::TooLarge => Err(
            ProgramError::StringNotNumber(("number too large to fit in target type").to_owned()),
        ),
    }
}

// ---------------------------------------------------------------------------
// The whole parse of one folder name
// ---------------------------------------------------------------------------
/// A record is what parsing `s` should build: the original name, the part
/// before the first `-`, the substring-detected category, and the numeric
/// value of the part after the last `_`.
pub open spec fn parsed_from(s: Seq<char>, rec: SaveInformation) -> bool {
    &&& rec.file_name@ == s
    &&& rec.character_name@ == s.subrange(0, first_index_of(s, '-'))
    &&& rec.save_type == spec_save_type(s)
    &&& parse_u16(s.subrange(last_index_of(s, '_') + 1, s.len() as int))
        == NumeralOutcome::Value(rec.save_number)
}

/// Parse one folder name into a record.  The sequence-number check runs
/// before the character-name check, so a name failing both reports the
/// underscore or numeral failure.
pub fn package_details(file_name: &str) -> (r: Result<SaveInformation, ProgramError>)
    ensures
        ({
            let s = file_name@;
            let li = last_index_of(s, '_');
            let fi = first_index_of(s, '-');
            if li < 0 {
                r matches Err(e) && e matches ProgramError::NotEnoughUnderscores(m) && m@
                    == "Did not find the correct number of underscores. Cannot continue with this save."@
            } else {
                match parse_u16(s.subrange(li + 1, s.len() as int)) {
                    NumeralOutcome::Value(v) => {
                        if 0 < fi < s.len() {
                            r matches Ok(rec) && parsed_from(s, rec) && rec.save_number == v
                        } else {
                            r matches Err(e) && e matches ProgramError::NameNotDetected(m) && m@
                                == "Could not detect character name"@
                        }
                    },
                    NumeralOutcome::EmptyInput => r matches Err(e) && e
                        matches ProgramError::StringNotNumber(m) && m@
                        == "cannot parse integer from empty string"@,
                    NumeralOutcome::BadDigit => r matches Err(e) && e
                        matches ProgramError::StringNotNumber(m) && m@
                        == "invalid digit found in string"@,
                    NumeralOutcome::TooLarge => r matches Err(e) && e
                        matches ProgramError::StringNotNumber(m) && m@
                        == "number too large to fit in target type"@,
                }
            }
        }),
{
    let parse_number = match save_number(file_name) {
        Ok(v) => v,
        Err(e) => {
            return Err(e);
        },
    };
    let characters_name = match character_name(file_name) {
        Ok(name) => name,
        Err(e) => {
            return Err(e);
        },
    };
    let s_type = save_type(file_name);
    Ok(SaveInformation::new(file_name.to_owned(), characters_name, s_type, parse_number))
}

/// A folder name that parses into a record: it has an underscore, its last
/// `_`-segment reads as a 16-bit number, and its first `-` exists and is not
/// at index 0.
pub open spec fn parse_succeeds(s: Seq<char>) -> bool {
    &&& last_index_of(s, '_') >= 0
    &&& parse_u16(s.subrange(last_index_of(s, '_') + 1, s.len() as int)) is Value
    &&& 0 < first_index_of(s, '-') < s.len()
}

/// Parse a whole directory listing: each name that parses contributes its
/// record, in order; names that fail to parse are dropped one by one and
/// never disturb their neighbours.
pub fn scan_names(names: Vec<String>) -> (r: Vec<SaveInformation>)
    ensures
        ({
            let kept = names.deep_view().filter(|s: Seq<char>| parse_succeeds(s));
            &&& r@.len() == kept.len()
            &&& forall|j: int| 0 <= j < kept.len() ==> parsed_from(kept[j], #[trigger] r@[j])
        }),
{
    let ghost all = names.deep_view();
    let total = names.len();
    let mut input = names;
    let mut out: Vec<SaveInformation> = Vec::new();
    let mut i: usize = 0;
    while input.len() > 0
        invariant
            all.len() == total,
            i + input@.len() == all.len(),
            input.deep_view() == all.subrange(i as int, all.len() as int),
            ({
                let kept = all.subrange(0, i as int).filter(|s: Seq<char>| parse_succeeds(s));
                &&& out@.len() == kept.len()
                &&& forall|j: int| 0 <= j < kept.len() ==> parsed_from(kept[j], #[trigger] out@[j])
            }),
        decreases input@.len(),
    {
        let ghost pv = input@;
        let ghost dv = input.deep_view();
        let name = input.remove(0);
        proof {
            assert(dv[0] == pv[0].deep_view());
            assert(name@ == all[i as int]);
            assert forall|k: int| 0 <= k < input@.len() implies #[trigger] input.deep_view()[k]
                == dv[k + 1] by {
                assert(input.deep_view()[k] == input@[k].deep_view());
                assert(input@[k] == pv[k + 1]);
                assert(dv[k + 1] == pv[k + 1].deep_view());
            }
            assert(input.deep_view() =~= all.subrange(i as int + 1, all.len() as int));
        }
        let parsed = package_details(name.as_str());
        proof {
            let prefix = all.subrange(0, i as int);
            let prefix1 = all.subrange(0, i as int + 1);
            assert(prefix1 =~= prefix.push(all[i as int]));
            crate::seq_facts::lemma_filter_push(
                prefix,
                |s: Seq<char>| parse_succeeds(s),
                all[i as int],
            );
        }
        match parsed {
            Ok(record) => {
                proof {
                    assert(parse_succeeds(name@));
                    assert(parsed_from(name@, record));
                }
                out.push(record);
                proof {
                    let prefix = all.subrange(0, i as int);
                    let prefix1 = all.subrange(0, i as int + 1);
                    let kept = prefix.filter(|s: Seq<char>| parse_succeeds(s));
                    let kept1 = prefix1.filter(|s: Seq<char>| parse_succeeds(s));
                    assert(kept1 == kept.push(name@));
                    assert forall|j: int| 0 <= j < kept1.len() implies parsed_from(
                        kept1[j],
                        #[trigger] out@[j],
                    ) by {
                        if j < kept.len() {
                            assert(kept1[j] == kept[j]);
                            assert(out@[j] == out@.drop_last()[j]);
                        } else {
                            assert(kept1[j] == name@);
                            assert(out@[j] == record);
                        }
                    }
                }
            },
            Err(_) => {
                proof {
                    assert(!parse_succeeds(name@));
                }
            },
        }
        i += 1;
    }
    proof {
        assert(all.subrange(0, all.len() as int) =~= all);
    }
    out
}

// ---------------------------------------------------------------------------
// Parsing law for well-shaped names
// ---------------------------------------------------------------------------
/// Every name of the shape `<n>-<mid>_<q>` — `<n>` non-empty and free of
/// `-`, `<q>` one or more digits reading to at most 65535 — parses: the
/// first `-` sits right after `<n>`, the last `_` right before `<q>`, the
/// character name comes out as `<n>` exactly and the sequence number as
/// `<q>`'s value.  The category is the substring rule applied to the whole
/// name.
pub proof fn lemma_valid_name_parses(s: Seq<char>, n: Seq<char>, mid: Seq<char>, q: Seq<char>)
    requires
        s == n + seq!['-'] + mid + seq!['_'] + q,
        n.len() > 0,
        forall|i: int| 0 <= i < n.len() ==> n[i] != '-',
        q.len() > 0,
        forall|i: int| 0 <= i < q.len() ==> is_digit(#[trigger] q[i]),
        digits_value(q) <= 65535,
    ensures
        first_index_of(s, '-') == n.len(),
        s.subrange(0, first_index_of(s, '-')) == n,
        last_index_of(s, '_') == n.len() + 1 + mid.len(),
        s.subrange(last_index_of(s, '_') + 1, s.len() as int) == q,
        parse_u16(s.subrange(last_index_of(s, '_') + 1, s.len() as int))
            == NumeralOutcome::Value(digits_value(q) as u16),
        parse_succeeds(s),
        forall|rec: SaveInformation|
            #[trigger] parsed_from(s, rec) ==> rec.character_name@ == n && rec.save_number
                == digits_value(q) as u16 && rec.save_type == spec_save_type(s) && rec.file_name@
                == s,
{
    let nl = n.len() as int;
    let ul = nl + 1 + mid.len();
    assert(s.len() == n.len() + 1 + mid.len() + 1 + q.len());
    assert(s[nl] == '-');
    assert(s[ul] == '_');
    assert forall|j: int| 0 <= j < nl implies s[j] != '-' by {
        assert(s[j] == n[j]);
    }
    lemma_first_index_of(s, '-');
    let fi = first_index_of(s, '-');
    assert(fi == nl) by {
        if fi < nl {
            assert(s[fi] == '-');
        }
        if fi > nl {
            assert(s[nl] != '-');
        }
    }
    assert(s.subrange(0, nl) =~= n);
    assert forall|j: int| ul < j < s.len() implies s[j] != '_' by {
        assert(s[j] == q[j - ul - 1]);
        assert(is_digit(q[j - ul - 1]));
    }
    lemma_last_index_of(s, '_');
    let li = last_index_of(s, '_');
    assert(li == ul) by {
        if li > ul {
            assert(s[li] == '_');
        }
        if li < ul {
            assert(s[ul] != '_');
        }
    }
    let seg = s.subrange(li + 1, s.len() as int);
    assert(seg =~= q);
    assert(!is_digit('+')) by {
        assert('+' as int == 43);
    }
    assert(q[0] != '+');
    lemma_digit_prefix_len(q);
    assert(digit_prefix_len(q) == q.len());
    assert(q.subrange(0, q.len() as int) =~= q);
}

} // verus!

