//! Byte lengths, offsets, and the layout report: the rules that turn a
//! field tree into storage sizes and positions, and the renderer that
//! writes them out in fixed columns.
use vstd::prelude::*;

use crate::cobol_parser::{CobolError, CobolField, CobolStructure};
use crate::text::{chars_of, digits_end, digits_value, eq_ci, parse_digits, scan_digits, str_eq};

verus! {

// ---------------------------------------------------------------------------
// Picture-clause length rules.
// ---------------------------------------------------------------------------
/// A parenthesized digit count — `(n)` — stands at position `i`.
pub open spec fn paren_at(p: Seq<char>, i: int) -> bool {
    0 <= i && i + 1 < p.len() && p[i] == '(' && digits_end(p, i + 1) > i + 1 && digits_end(
        p,
        i + 1,
    ) < p.len() && p[digits_end(p, i + 1)] == ')'
}

/// The count inside a parenthesized group at `i`.
pub open spec fn paren_count(p: Seq<char>, i: int) -> int {
    digits_value(p.subrange(i + 1, digits_end(p, i + 1)))
}

/// Position just after a parenthesized group at `i`.
pub open spec fn paren_end(p: Seq<char>, i: int) -> int {
    digits_end(p, i + 1) + 1
}

/// A numeric group — `9(n)` — stands at position `i`.
pub open spec fn nine_at(p: Seq<char>, i: int) -> bool {
    0 <= i < p.len() && p[i] == '9' && paren_at(p, i + 1)
}

/// A signed-numeric pattern — `s9(n)`, the sign optional — stands at `i`.
pub open spec fn s9_at(p: Seq<char>, i: int) -> bool {
    (0 <= i < p.len() && eq_ci(p[i], 's') && nine_at(p, i + 1)) || nine_at(p, i)
}

/// A character group — `x(n)` — stands at position `i`.
pub open spec fn x_at(p: Seq<char>, i: int) -> bool {
    0 <= i < p.len() && eq_ci(p[i], 'x') && paren_at(p, i + 1)
}

/// Leftmost position at or after `i` where a signed-numeric pattern stands
/// (or the length, when none does).
pub open spec fn s9_find(p: Seq<char>, i: int) -> int
    decreases p.len() - i,
{
    if i < 0 || i >= p.len() {
        p.len() as int
    } else if s9_at(p, i) {
        i
    } else {
        s9_find(p, i + 1)
    }
}

/// Leftmost position at or after `i` where a character group stands (or
/// the length, when none does).
pub open spec fn x_find(p: Seq<char>, i: int) -> int
    decreases p.len() - i,
{
    if i < 0 || i >= p.len() {
        p.len() as int
    } else if x_at(p, i) {
        i
    } else {
        x_find(p, i + 1)
    }
}

/// The picture holds a signed-numeric pattern somewhere.
pub open spec fn has_s9(p: Seq<char>) -> bool {
    s9_find(p, 0) < p.len()
}

/// The picture holds a character group somewhere.
pub open spec fn has_x(p: Seq<char>) -> bool {
    x_find(p, 0) < p.len()
}

/// Start of the `9(n)` group inside the leftmost signed-numeric pattern.
pub open spec fn s9_nine_pos(p: Seq<char>) -> int {
    let i = s9_find(p, 0);
    if 0 <= i < p.len() && eq_ci(p[i], 's') && nine_at(p, i + 1) {
        i + 1
    } else {
        i
    }
}

/// Digit count of the leftmost signed-numeric pattern: the integer digits,
/// plus the decimal digits of a `v9(m)` continuation when one follows.
pub open spec fn s9_digits(p: Seq<char>) -> int {
    let b = s9_nine_pos(p);
    let e = paren_end(p, b + 1);
    paren_count(p, b + 1) + (if e < p.len() && eq_ci(p[e], 'v') && nine_at(p, e + 1) {
        paren_count(p, e + 2)
    } else {
        0
    })
}

/// The picture is the zero-suppressed edit pattern `zzzzz9`, in any case.
pub open spec fn is_zzzzz9(p: Seq<char>) -> bool {
    p.len() == 6 && eq_ci(p[0], 'z') && eq_ci(p[1], 'z') && eq_ci(p[2], 'z') && eq_ci(p[3], 'z')
        && eq_ci(p[4], 'z') && p[5] == '9'
}

/// Byte length a picture clause prescribes under display usage: one
/// special-cased digit, a signed-numeric digit count, a character count, the
/// zero-suppression pattern, or — for anything else — the raw character
/// count of the picture itself.
pub open spec fn spec_picture_length(p: Seq<char>) -> int {
    if p.len() == 1 && p[0] == '9' {
        1
    } else if has_s9(p) {
        s9_digits(p)
    } else if has_x(p) {
        x_count(p)
    } else if is_zzzzz9(p) {
        6
    } else {
        p.len() as int
    }
}

/// The count of the leftmost character group.
pub open spec fn x_count(p: Seq<char>) -> int {
    paren_count(p, x_find(p, 0) + 1)
}

/// The digit count a packed-decimal field stores: from the signed-numeric
/// pattern when one stands in the picture, else one for the bare `9`
/// picture, else the picture's generic length.
pub open spec fn spec_comp3_digits(p: Seq<char>) -> int {
    if has_s9(p) {
        s9_digits(p)
    } else if p.len() == 1 && p[0] == '9' {
        1
    } else {
        spec_picture_length(p)
    }
}

/// Byte length under a usage marker: packed decimal packs two digits to a
/// byte plus a sign nibble; the binary usages are a fixed four bytes (a
/// documented simplification); an unrecognized marker falls back to the
/// picture rules.
pub open spec fn spec_comp_length(p: Seq<char>, u: Seq<char>) -> int {
    if u == "COMP-3"@ {
        (spec_comp3_digits(p) + 2) / 2
    } else if u == "COMP"@ || u == "COMP-1"@ || u == "COMP-2"@ {
        4
    } else {
        spec_picture_length(p)
    }
}

/// The numbers written in the picture are small enough to compute with.
pub open spec fn spec_picture_fits(p: Seq<char>) -> bool {
    spec_picture_length(p) <= u64::MAX
}

/// The digit counts under the given usage are small enough to compute with.
pub open spec fn spec_comp_fits(p: Seq<char>, u: Seq<char>) -> bool {
    if u == "COMP-3"@ {
        spec_comp3_digits(p) <= u64::MAX
    } else if u == "COMP"@ || u == "COMP-1"@ || u == "COMP-2"@ {
        true
    } else {
        spec_picture_fits(p)
    }
}

pub proof fn lemma_picture_length_nonneg(p: Seq<char>)
    ensures
        spec_picture_length(p) >= 0,
        spec_comp3_digits(p) >= 0,
{
    let b = s9_nine_pos(p);
    let e = paren_end(p, b + 1);
    crate::text::lemma_digits_value_nonneg(p.subrange(b + 2, digits_end(p, b + 2)));
    crate::text::lemma_digits_value_nonneg(p.subrange(e + 3, digits_end(p, e + 3)));
    let j = x_find(p, 0);
    crate::text::lemma_digits_value_nonneg(p.subrange(j + 2, digits_end(p, j + 2)));
}

fn exec_paren_at(p: &Vec<char>, i: usize) -> (r: bool)
    ensures
        r == paren_at(p@, i as int),
{
    let n = p.len();
    if !(i < n && n - i > 1 && p[i] == '(') {
        return false;
    }
    let e = scan_digits(p, i + 1);
    e > i + 1 && e < n && p[e] == ')'
}

fn exec_nine_at(p: &Vec<char>, i: usize) -> (r: bool)
    ensures
        r == nine_at(p@, i as int),
{
    let n = p.len();
    if !(i < n && p[i] == '9') {
        return false;
    }
    exec_paren_at(p, i + 1)
}

fn exec_s9_at(p: &Vec<char>, i: usize) -> (r: bool)
    ensures
        r == s9_at(p@, i as int),
{
    let n = p.len();
    if i < n && crate::text::ch_eq_ci(p[i], 's') && exec_nine_at(p, i + 1) {
        return true;
    }
    exec_nine_at(p, i)
}

fn exec_x_at(p: &Vec<char>, i: usize) -> (r: bool)
    ensures
        r == x_at(p@, i as int),
{
    let n = p.len();
    if !(i < n && crate::text::ch_eq_ci(p[i], 'x')) {
        return false;
    }
    exec_paren_at(p, i + 1)
}

fn exec_s9_find(p: &Vec<char>) -> (r: usize)
    ensures
        r == s9_find(p@, 0),
        r <= p@.len(),
        r < p@.len() ==> s9_at(p@, r as int),
{
    let n = p.len();
    let mut i: usize = 0;
    while i < n
        invariant
            0 <= i <= n,
            n == p@.len(),
            s9_find(p@, 0) == s9_find(p@, i as int),
        decreases n - i,
    {
        if exec_s9_at(p, i) {
            return i;
        }
        i = i + 1;
    }
    i
}

fn exec_x_find(p: &Vec<char>) -> (r: usize)
    ensures
        r == x_find(p@, 0),
        r <= p@.len(),
        r < p@.len() ==> x_at(p@, r as int),
{
    let n = p.len();
    let mut i: usize = 0;
    while i < n
        invariant
            0 <= i <= n,
            n == p@.len(),
            x_find(p@, 0) == x_find(p@, i as int),
        decreases n - i,
    {
        if exec_x_at(p, i) {
            return i;
        }
        i = i + 1;
    }
    i
}

/// Read the count of the parenthesized group at `i`; `None` when it does
/// not fit.
fn exec_paren_count(p: &Vec<char>, i: usize) -> (r: Option<u64>)
    requires
        paren_at(p@, i as int),
    ensures
        r is Some <==> paren_count(p@, i as int) <= u64::MAX,
        r matches Some(v) ==> v == paren_count(p@, i as int),
{
    let n = p.len();
    proof {
        assert(i + 1 <= n);
        crate::text::lemma_digits_end_bounds(p@, i + 1);
    }
    let e = scan_digits(p, i + 1);
    parse_digits(p, i + 1, e)
}

/// The digit count of the leftmost signed-numeric pattern; `None` when a
/// written count does not fit.
fn exec_s9_digits(p: &Vec<char>) -> (r: Option<u64>)
    requires
        has_s9(p@),
    ensures
        r is Some <==> s9_digits(p@) <= u64::MAX,
        r matches Some(v) ==> v == s9_digits(p@),
{
    let n = p.len();
    let i = exec_s9_find(p);
    let b: usize = if i < n && crate::text::ch_eq_ci(p[i], 's') && exec_nine_at(p, i + 1) {
        i + 1
    } else {
        i
    };
    proof {
        assert(b as int == s9_nine_pos(p@));
        assert(nine_at(p@, b as int));
        crate::text::lemma_digits_end_bounds(p@, b + 2);
    }
    let e0 = scan_digits(p, b + 2);
    let e = e0 + 1;
    proof {
        assert(e as int == paren_end(p@, b + 1));
    }
    let first = match exec_paren_count(p, b + 1) {
        Some(v) => v,
        None => {
            proof {
                crate::text::lemma_digits_value_nonneg(
                    p@.subrange(e as int + 3, digits_end(p@, e as int + 3)),
                );
            }
            return None;
        },
    };
    let second: u64 = if e < n && crate::text::ch_eq_ci(p[e], 'v') && exec_nine_at(p, e + 1) {
        match exec_paren_count(p, e + 2) {
            Some(v) => v,
            None => {
                return None;
            },
        }
    } else {
        0
    };
    if first <= u64::MAX - second {
        Some(first + second)
    } else {
        None
    }
}

/// Byte length prescribed by a picture clause under display usage.  The
/// length is owed for every picture; only one whose written digit count is
/// too large to compute with is refused, as malformed.
pub fn calculate_picture_length(picture: &str) -> (r: Result<u64, CobolError>)
    ensures
        r is Ok <==> spec_picture_fits(picture@),
        r matches Ok(n) ==> n == spec_picture_length(picture@),
        r matches Err(e) ==> e is MalformedField,
{
    let p = chars_of(picture);
    let n = p.len();
    proof {
        lemma_picture_length_nonneg(p@);
    }
    if n == 1 && p[0] == '9' {
        return Ok(1);
    }
    let i = exec_s9_find(&p);
    if i < n {
        match exec_s9_digits(&p) {
            Some(v) => {
                return Ok(v);
            },
            None => {
                return Err(malformed_picture(picture));
            },
        }
    }
    let j = exec_x_find(&p);
    if j < n {
        proof {
            assert(x_at(p@, j as int));
        }
        match exec_paren_count(&p, j + 1) {
            Some(v) => {
                return Ok(v);
            },
            None => {
                return Err(malformed_picture(picture));
            },
        }
    }
    if n == 6 && crate::text::ch_eq_ci(p[0], 'z') && crate::text::ch_eq_ci(p[1], 'z')
        && crate::text::ch_eq_ci(p[2], 'z') && crate::text::ch_eq_ci(p[3], 'z')
        && crate::text::ch_eq_ci(p[4], 'z') && p[5] == '9' {
        return Ok(6);
    }
    Ok(n as u64)
}

/// The malformed-picture error: the offending picture text itself.
fn malformed_picture(picture: &str) -> (r: CobolError)
    ensures
        r is MalformedField,
{
    let mut text = String::new();
    text.append(picture);
    CobolError::MalformedField { line_number: 0, text }
}

/// Byte length under a usage marker: `COMP-3` packs digits two to a byte
/// with a sign nibble, rounded up; `COMP`, `COMP-1` and `COMP-2` are a
/// fixed four bytes; any other marker falls back to the picture rules.
pub fn calculate_comp_length(picture: &str, comp_type: &str) -> (r: Result<u64, CobolError>)
    ensures
        r is Ok <==> spec_comp_fits(picture@, comp_type@),
        r matches Ok(n) ==> n == spec_comp_length(picture@, comp_type@),
        r matches Err(e) ==> e is MalformedField,
{
    let p = chars_of(picture);
    let n = p.len();
    proof {
        lemma_picture_length_nonneg(p@);
    }
    if str_eq(comp_type, "COMP-3") {
        let i = exec_s9_find(&p);
        let digits: u64 = if i < n {
            match exec_s9_digits(&p) {
                Some(v) => v,
                None => {
                    return Err(malformed_picture(picture));
                },
            }
        } else if n == 1 && p[0] == '9' {
            1
        } else {
            match calculate_picture_length(picture) {
                Ok(v) => v,
                Err(e) => {
                    return Err(e);
                },
            }
        };
        proof {
            assert(digits == spec_comp3_digits(picture@));
            assert((digits as int + 2) / 2 == digits as int / 2 + 1);
        }
        return Ok(digits / 2 + 1);
    }
    if str_eq(comp_type, "COMP") || str_eq(comp_type, "COMP-1") || str_eq(comp_type, "COMP-2") {
        return Ok(4);
    }
    calculate_picture_length(picture)
}

} // verus!

// ---------------------------------------------------------------------------
// Field lengths: the unmultiplied byte size of one occurrence.
// ---------------------------------------------------------------------------
verus! {

/// Unmultiplied byte length of a leaf: by usage when a marker stands on the
/// field, by the picture rules otherwise, and zero without a picture.
pub open spec fn spec_leaf_length(f: CobolField) -> int {
    match f.picture {
        Some(p) => match f.data_type {
            Some(u) => spec_comp_length(p@, u@),
            None => spec_picture_length(p@),
        },
        None => 0,
    }
}

/// Unmultiplied byte length of a field: the sum over its children for a
/// group, its own leaf length otherwise.  Repetition counts play no part.
pub open spec fn spec_field_length(f: CobolField) -> int
    decreases f,
{
    if f.children@.len() > 0 {
        spec_children_length(f.children@)
    } else {
        spec_leaf_length(f)
    }
}

/// Sum of the unmultiplied lengths over a forest.
pub open spec fn spec_children_length(s: Seq<CobolField>) -> int
    decreases s,
{
    if s.len() == 0 {
        0
    } else {
        spec_field_length(s[0]) + spec_children_length(s.drop_first())
    }
}

/// The numbers written on a leaf are small enough to compute with.
pub open spec fn spec_leaf_fits(f: CobolField) -> bool {
    match f.picture {
        Some(p) => match f.data_type {
            Some(u) => spec_comp_fits(p@, u@),
            None => spec_picture_fits(p@),
        },
        None => true,
    }
}

/// Every length in the subtree is small enough to compute with.
pub open spec fn spec_length_fits(f: CobolField) -> bool
    decreases f,
{
    if f.children@.len() > 0 {
        spec_children_length(f.children@) <= u64::MAX && spec_forest_fits(f.children@)
    } else {
        spec_leaf_fits(f)
    }
}

/// Every length in a forest is small enough to compute with.
pub open spec fn spec_forest_fits(s: Seq<CobolField>) -> bool
    decreases s,
{
    s.len() == 0 || (spec_length_fits(s[0]) && spec_forest_fits(s.drop_first()))
}

pub proof fn lemma_field_length_nonneg(f: CobolField)
    ensures
        spec_field_length(f) >= 0,
    decreases f,
{
    if f.children@.len() > 0 {
        lemma_children_length_nonneg(f.children@);
    } else {
        match f.picture {
            Some(p) => {
                lemma_picture_length_nonneg(p@);
            },
            None => {
            },
        }
    }
}

pub proof fn lemma_children_length_nonneg(s: Seq<CobolField>)
    ensures
        spec_children_length(s) >= 0,
    decreases s,
{
    if s.len() > 0 {
        lemma_field_length_nonneg(s[0]);
        lemma_children_length_nonneg(s.drop_first());
    }
}

/// Unmultiplied byte length of a field, as the pair the renderer reads: the
/// computed length and the displayed length, always equal.  Fails only when
/// a written digit count is too large to compute with.
pub fn calculate_field_length(field: &CobolField) -> (r: Result<(u64, u64), CobolError>)
    ensures
        r is Ok <==> spec_length_fits(*field),
        r matches Ok(t) ==> t.0 == spec_field_length(*field) && t.1 == t.0,
        r matches Err(e) ==> e is MalformedField,
    decreases *field,
{
    let n = field.children.len();
    if n > 0 {
        let ghost ch: Seq<CobolField> = field.children@;
        let mut total: u64 = 0;
        let mut i: usize = 0;
        proof {
            assert(ch.skip(0) =~= ch);
        }
        while i < n
            invariant
                0 <= i <= n,
                n == field.children@.len(),
                ch == field.children@,
                total + spec_children_length(ch.skip(i as int)) == spec_children_length(ch),
                spec_forest_fits(ch) <==> spec_forest_fits(ch.skip(i as int)),
            decreases n - i,
        {
            proof {
                assert(ch.skip(i as int).drop_first() =~= ch.skip(i + 1));
                assert(ch.skip(i as int)[0] == ch[i as int]);
                lemma_children_length_nonneg(ch.skip(i + 1));
                lemma_field_length_nonneg(ch[i as int]);
            }
            let child = &field.children[i];
            match calculate_field_length(child) {
                Ok(pair) => {
                    let (child_len, _child_displayed) = pair;
                    if total <= u64::MAX - child_len {
                        total = total + child_len;
                    } else {
                        return Err(CobolError::MalformedField {
                            line_number: field.line_number,
                            text: crate::cobol_parser::field_text(field),
                        });
                    }
                },
                Err(e) => {
                    return Err(e);
                },
            }
            i = i + 1;
        }
        proof {
            assert(ch.skip(n as int) =~= Seq::<CobolField>::empty());
        }
        Ok((total, total))
    } else {
        match &field.picture {
            Some(picture) => {
                let len = match &field.data_type {
                    Some(comp_type) => calculate_comp_length(picture.as_str(), comp_type.as_str()),
                    None => calculate_picture_length(picture.as_str()),
                };
                match len {
                    Ok(v) => Ok((v, v)),
                    Err(e) => Err(e),
                }
            },
            None => Ok((0, 0)),
        }
    }
}

} // verus!

// ---------------------------------------------------------------------------
// The position walker and the renderer.
// ---------------------------------------------------------------------------
verus! {

/// A field's own repetition count, defaulting to one.
pub open spec fn spec_occurs(f: CobolField) -> int {
    match f.occurs {
        Some(n) => n as int,
        None => 1,
    }
}

/// The repetition multiplier a field works under: its own count times
/// everything inherited from its ancestors.
pub open spec fn spec_eff_mult(f: CobolField, inherited: int) -> int {
    inherited * spec_occurs(f)
}

/// A field's effective length: its unmultiplied length times its
/// effective multiplier.
pub open spec fn spec_effective_length(f: CobolField, inherited: int) -> int {
    spec_field_length(f) * spec_eff_mult(f, inherited)
}

/// How far the cursor advances over a field walked under an inherited
/// multiplier: a leaf advances by its effective length; a group advances by
/// its children, which inherit the group's multiplier.
pub open spec fn spec_advance(f: CobolField, m: int) -> int
    decreases f,
{
    if f.children@.len() == 0 {
        spec_field_length(f) * spec_eff_mult(f, m)
    } else {
        spec_advance_forest(f.children@, spec_eff_mult(f, m))
    }
}

/// Cursor advance over a forest walked left to right.
pub open spec fn spec_advance_forest(s: Seq<CobolField>, m: int) -> int
    decreases s,
{
    if s.len() == 0 {
        0
    } else {
        spec_advance(s[0], m) + spec_advance_forest(s.drop_first(), m)
    }
}

pub proof fn lemma_advance_nonneg(f: CobolField, m: int)
    requires
        m >= 0,
    ensures
        spec_advance(f, m) >= 0,
    decreases f,
{
    lemma_field_length_nonneg(f);
    if f.children@.len() == 0 {
    } else {
        lemma_advance_forest_nonneg(f.children@, spec_eff_mult(f, m));
    }
}

pub proof fn lemma_advance_forest_nonneg(s: Seq<CobolField>, m: int)
    requires
        m >= 0,
    ensures
        spec_advance_forest(s, m) >= 0,
    decreases s,
{
    if s.len() > 0 {
        lemma_advance_nonneg(s[0], m);
        lemma_advance_forest_nonneg(s.drop_first(), m);
    }
}

/// Every multiplier and cursor value met while walking `f` fits in the
/// machine range.
pub open spec fn spec_walk_fits(f: CobolField, m: int, pos: int) -> bool
    decreases f,
{
    spec_eff_mult(f, m) <= u64::MAX && spec_length_fits(f) && if f.children@.len() == 0 {
        pos + spec_field_length(f) * spec_eff_mult(f, m) <= u64::MAX
    } else {
        spec_walk_forest_fits(f.children@, spec_eff_mult(f, m), pos)
    }
}

/// The walk fits over a whole forest, the cursor moving left to right.
pub open spec fn spec_walk_forest_fits(s: Seq<CobolField>, m: int, pos: int) -> bool
    decreases s,
{
    s.len() == 0 || (spec_walk_fits(s[0], m, pos) && spec_walk_forest_fits(
        s.drop_first(),
        m,
        pos + spec_advance(s[0], m),
    ))
}

/// The truncation the renderer applies: at most `w` characters, cut hard.
pub open spec fn spec_trunc(s: Seq<char>, w: int) -> Seq<char> {
    if s.len() <= w {
        s
    } else {
        s.take(w)
    }
}

/// The format column: a repetition marker when the field has one, else the
/// raw picture, else nothing.
pub open spec fn spec_format(f: CobolField) -> Seq<char> {
    match f.occurs {
        Some(n) => "OCCURS("@ + crate::text::dec_seq(n as int) + ")"@,
        None => match f.picture {
            Some(p) => p@,
            None => Seq::empty(),
        },
    }
}

/// The type column: the usage marker, or nothing.
pub open spec fn spec_usage_text(f: CobolField) -> Seq<char> {
    match f.data_type {
        Some(u) => u@,
        None => Seq::empty(),
    }
}

/// One detail row: name, format and type columns, a blank N-Len column,
/// the starting position, and — for a leaf of positive length — the
/// effective length.
pub open spec fn spec_row(f: CobolField, m: int, pos: int) -> Seq<char> {
    crate::text::pad_right(spec_trunc(f.name@, 29), 29) + " "@ + crate::text::pad_right(
        spec_trunc(spec_format(f), 14),
        14,
    ) + " "@ + crate::text::pad_right(spec_trunc(spec_usage_text(f), 14), 14) + " "@
        + crate::text::spaces(5) + " "@ + crate::text::pad_left(crate::text::dec_seq(pos), 5)
        + " "@ + (if f.children@.len() == 0 && spec_field_length(f) > 0 {
        crate::text::pad_left(crate::text::dec_seq(spec_field_length(f) * spec_eff_mult(f, m)), 5)
    } else {
        crate::text::spaces(5)
    }) + "\n"@
}

/// All the detail rows a walk of `f` writes: the field's own row, and its
/// children's rows beneath it.
pub open spec fn spec_walk_rows(f: CobolField, m: int, pos: int) -> Seq<char>
    decreases f,
{
    spec_row(f, m, pos) + if f.children@.len() == 0 {
        Seq::<char>::empty()
    } else {
        spec_walk_forest_rows(f.children@, spec_eff_mult(f, m), pos)
    }
}

/// The rows of a forest, the cursor moving left to right.
pub open spec fn spec_walk_forest_rows(s: Seq<CobolField>, m: int, pos: int) -> Seq<char>
    decreases s,
{
    if s.len() == 0 {
        Seq::empty()
    } else {
        spec_walk_rows(s[0], m, pos) + spec_walk_forest_rows(
            s.drop_first(),
            m,
            pos + spec_advance(s[0], m),
        )
    }
}

/// What the walk leaves in the running total: a field at level one records
/// its own cursor advance; any other group lets its children write theirs;
/// any other leaf leaves the total alone.
pub open spec fn spec_walk_total(f: CobolField, m: int, t0: int) -> int
    decreases f,
{
    if f.level == 1 {
        spec_advance(f, m)
    } else if f.children@.len() == 0 {
        t0
    } else {
        spec_walk_forest_total(f.children@, spec_eff_mult(f, m), t0)
    }
}

/// The running total after walking a forest.
pub open spec fn spec_walk_forest_total(s: Seq<CobolField>, m: int, t0: int) -> int
    decreases s,
{
    if s.len() == 0 {
        t0
    } else {
        spec_walk_forest_total(s.drop_first(), m, spec_walk_total(s[0], m, t0))
    }
}

/// Multiply, refusing results out of the machine range.
fn mul_checked(a: u64, b: u64) -> (r: Option<u64>)
    ensures
        r is Some <==> a * b <= u64::MAX,
        r matches Some(v) ==> v == a * b,
{
    if b == 0 {
        Some(0)
    } else if a <= u64::MAX / b {
        proof {
            assert(a * b <= (u64::MAX as int / b as int) * b <= u64::MAX) by (nonlinear_arith)
                requires
                    0 < b <= u64::MAX as int,
                    0 <= a <= u64::MAX as int / b as int,
            ;
        }
        Some(a * b)
    } else {
        proof {
            assert(a * b > u64::MAX) by (nonlinear_arith)
                requires
                    0 < b <= u64::MAX as int,
                    a > u64::MAX as int / b as int,
            ;
        }
        None
    }
}

/// Cut a string to at most `max_len` characters; a shorter string is
/// returned whole.
pub fn truncate_string(s: &str, max_len: usize) -> (r: String)
    ensures
        r@ == spec_trunc(s@, max_len as int),
{
    let v = chars_of(s);
    let n = v.len();
    if n <= max_len {
        crate::text::string_of_range(&v, 0, n)
    } else {
        crate::text::string_of_range(&v, 0, max_len)
    }
}

/// The format column of a field: `OCCURS(n)` for a repeated field, else
/// the picture as written, else an empty string.
pub fn get_format_string(field: &CobolField) -> (r: String)
    ensures
        r@ == spec_format(*field),
{
    match &field.occurs {
        Some(n) => {
            let mut s = String::new();
            s.append("OCCURS(");
            let num = crate::text::format_u64(*n as u64);
            s.append(num.as_str());
            s.append(")");
            s
        },
        None => match &field.picture {
            Some(p) => {
                let mut s = String::new();
                s.append(p.as_str());
                proof {
                    assert(s@ =~= p@);
                }
                s
            },
            None => String::new(),
        },
    }
}

/// Walk one field under an inherited multiplier: write its detail row,
/// advance the byte cursor over it, and walk its children beneath it with
/// the multiplier scaled by the field's own repetition count.
pub fn process_field_with_multiplier(
    field: &CobolField,
    output: &mut String,
    position: &mut u64,
    total_length: &mut u64,
    depth: usize,
    inherited_multiplier: u64,
) -> (r: Result<(), CobolError>)
    ensures
        r is Ok <==> spec_walk_fits(*field, inherited_multiplier as int, *old(position) as int),
        r is Ok ==> final(output)@ == old(output)@ + spec_walk_rows(
            *field,
            inherited_multiplier as int,
            *old(position) as int,
        ),
        r is Ok ==> *final(position) == *old(position) + spec_advance(
            *field,
            inherited_multiplier as int,
        ),
        r is Ok ==> *final(total_length) == spec_walk_total(
            *field,
            inherited_multiplier as int,
            *old(total_length) as int,
        ),
        old(output)@.is_prefix_of(final(output)@),
        r matches Err(e) ==> e is MalformedField,
    decreases *field,
{
    let ghost m: int = inherited_multiplier as int;
    let ghost pos0: int = *position as int;
    proof {
        assert(output@.subrange(0, output@.len() as int) =~= output@);
        assert(old(output)@.is_prefix_of(output@));
    }
    let field_name = truncate_string(&field.name, 29);
    let format = get_format_string(field);
    let data_type = match &field.data_type {
        Some(u) => {
            let mut s = String::new();
            s.append(u.as_str());
            proof {
                assert(s@ =~= u@);
            }
            s
        },
        None => String::new(),
    };

    let pair = match calculate_field_length(field) {
        Ok(t) => t,
        Err(e) => {
            return Err(e);
        },
    };
    let (field_length, displayed_length) = pair;

    let occ: u64 = match &field.occurs {
        Some(o) => *o as u64,
        None => 1,
    };
    let effective_multiplier = match mul_checked(inherited_multiplier, occ) {
        Some(v) => v,
        None => {
            return Err(CobolError::MalformedField {
                line_number: field.line_number,
                text: crate::cobol_parser::field_text(field),
            });
        },
    };
    proof {
        assert(effective_multiplier as int == spec_eff_mult(*field, m));
        lemma_field_length_nonneg(*field);
    }

    let current_pos = *position;

    // the effective length shown for a leaf, and the cursor advance
    let is_leaf = field.children.len() == 0;
    let mut effective_length: u64 = 0;
    if is_leaf {
        match mul_checked(displayed_length, effective_multiplier) {
            Some(v) => {
                if current_pos <= u64::MAX - v {
                    effective_length = v;
                } else {
                    return Err(CobolError::MalformedField {
                        line_number: field.line_number,
                        text: crate::cobol_parser::field_text(field),
                    });
                }
            },
            None => {
                return Err(CobolError::MalformedField {
                    line_number: field.line_number,
                    text: crate::cobol_parser::field_text(field),
                });
            },
        }
    }

    // the row
    let mut row = crate::text::padded_right(&field_name, 29);
    row.append(" ");
    let c2 = crate::text::padded_right(&truncate_string(format.as_str(), 14), 14);
    row.append(c2.as_str());
    row.append(" ");
    let c3 = crate::text::padded_right(&truncate_string(data_type.as_str(), 14), 14);
    row.append(c3.as_str());
    row.append(" ");
    let sp5 = crate::text::space_string(5);
    row.append(sp5.as_str());
    row.append(" ");
    let posn = crate::text::padded_left(&crate::text::format_u64(current_pos), 5);
    row.append(posn.as_str());
    row.append(" ");
    if is_leaf && displayed_length > 0 {
        let lenn = crate::text::padded_left(&crate::text::format_u64(effective_length), 5);
        row.append(lenn.as_str());
    } else {
        let blank = crate::text::space_string(5);
        row.append(blank.as_str());
    }
    row.append("\n");
    proof {
        assert(format@.len() <= 14 ==> spec_trunc(format@, 14) == format@);
        assert(row@ =~= spec_row(*field, m, pos0));
    }
    output.append(row.as_str());
    proof {
        assert(output@.subrange(0, old(output)@.len() as int) =~= old(output)@);
        assert(old(output)@.is_prefix_of(output@));
    }

    if is_leaf {
        *position = current_pos + effective_length;
        if field.level == 1 {
            *total_length = effective_length;
        }
        proof {
            assert(spec_walk_rows(*field, m, pos0) =~= spec_row(*field, m, pos0));
        }
        Ok(())
    } else {
        let ghost ch: Seq<CobolField> = field.children@;
        let ghost em: int = effective_multiplier as int;
        let ghost out1: Seq<char> = output@;
        let start_pos = *position;
        let n = field.children.len();
        let mut i: usize = 0;
        proof {
            assert(ch.skip(0) =~= ch);
        }
        while i < n
            invariant
                0 <= i <= n,
                n == field.children@.len(),
                ch == field.children@,
                m == inherited_multiplier as int,
                pos0 == *old(position) as int,
                start_pos as int == pos0,
                em == spec_eff_mult(*field, m),
                em == effective_multiplier as int,
                em <= u64::MAX,
                old(output)@.is_prefix_of(output@),
                spec_length_fits(*field),
                output@ + spec_walk_forest_rows(ch.skip(i as int), em, *position as int) =~~= out1
                    + spec_walk_forest_rows(ch, em, start_pos as int),
                *position as int == start_pos as int + spec_advance_forest(
                    ch.take(i as int),
                    em,
                ),
                spec_walk_forest_fits(ch, em, start_pos as int) <==> spec_walk_forest_fits(
                    ch.skip(i as int),
                    em,
                    *position as int,
                ),
                *total_length as int == spec_walk_forest_total(
                    ch.take(i as int),
                    em,
                    *old(total_length) as int,
                ),
            decreases n - i,
        {
            let ghost pos_i: int = *position as int;
            let ghost out_i: Seq<char> = output@;
            let ghost tot_i: int = *total_length as int;
            proof {
                assert(ch.skip(i as int).drop_first() =~= ch.skip(i + 1));
                assert(ch.skip(i as int)[0] == ch[i as int]);
                lemma_advance_forest_take_snoc(ch, em, i as int);
                lemma_walk_forest_total_take_snoc(ch, em, *old(total_length) as int, i as int);
            }
            let child = &field.children[i];
            let child_depth: usize = if depth < usize::MAX {
                depth + 1
            } else {
                depth
            };
            match process_field_with_multiplier(
                child,
                output,
                position,
                total_length,
                child_depth,
                effective_multiplier,
            ) {
                Ok(u) => u,
                Err(e) => {
                    proof {
                        assert(!spec_walk_fits(ch[i as int], em, pos_i));
                        assert(!spec_walk_forest_fits(ch.skip(i as int), em, pos_i));
                        assert(!spec_walk_forest_fits(ch, em, start_pos as int));
                        crate::text::lemma_prefix_trans(old(output)@, out_i, output@);
                    }
                    return Err(e);
                },
            }
            proof {
                let adv = spec_advance(ch[i as int], em);
                assert(spec_walk_forest_rows(ch.skip(i as int), em, pos_i) =~~= spec_walk_rows(
                    ch[i as int],
                    em,
                    pos_i,
                ) + spec_walk_forest_rows(ch.skip(i + 1), em, pos_i + adv));
                assert(output@ =~~= out_i + spec_walk_rows(ch[i as int], em, pos_i));
                assert(output@ + spec_walk_forest_rows(ch.skip(i + 1), em, pos_i + adv) =~~= out_i
                    + spec_walk_forest_rows(ch.skip(i as int), em, pos_i));
                assert(*position as int == pos_i + adv);
                assert(*total_length as int == spec_walk_total(ch[i as int], em, tot_i));
                assert(output@.subrange(0, out_i.len() as int) =~= out_i);
                crate::text::lemma_prefix_trans(old(output)@, out_i, output@);
            }
            i = i + 1;
        }
        proof {
            assert(ch.skip(n as int) =~= Seq::<CobolField>::empty());
            assert(ch.take(n as int) =~= ch);
        }
        if field.level == 1 {
            proof {
                lemma_advance_forest_nonneg(ch, em);
            }
            *total_length = *position - start_pos;
        }
        Ok(())
    }
}

/// Snoc form of the forest advance: taking one more field advances by that
/// field's own advance.
pub proof fn lemma_advance_forest_take_snoc(s: Seq<CobolField>, m: int, i: int)
    requires
        0 <= i < s.len(),
    ensures
        spec_advance_forest(s.take(i + 1), m) == spec_advance_forest(s.take(i), m) + spec_advance(
            s[i],
            m,
        ),
    decreases i,
{
    if i == 0 {
        assert(s.take(1).drop_first() =~= Seq::<CobolField>::empty());
        assert(s.take(1)[0] == s[0]);
        assert(s.take(0) =~= Seq::<CobolField>::empty());
    } else {
        assert(s.take(i + 1).drop_first() =~= s.drop_first().take(i));
        assert(s.take(i).drop_first() =~= s.drop_first().take(i - 1));
        assert(s.take(i + 1)[0] == s[0]);
        assert(s.take(i)[0] == s[0]);
        lemma_advance_forest_take_snoc(s.drop_first(), m, i - 1);
        assert(s.drop_first()[i - 1] == s[i]);
    }
}

/// Snoc form of the forest total.
pub proof fn lemma_walk_forest_total_take_snoc(s: Seq<CobolField>, m: int, t0: int, i: int)
    requires
        0 <= i < s.len(),
    ensures
        spec_walk_forest_total(s.take(i + 1), m, t0) == spec_walk_total(
            s[i],
            m,
            spec_walk_forest_total(s.take(i), m, t0),
        ),
    decreases i,
{
    if i == 0 {
        let t1 = spec_walk_total(s[0], m, t0);
        assert(s.take(1).drop_first() =~= Seq::<CobolField>::empty());
        assert(s.take(1)[0] == s[0]);
        assert(s.take(0) =~= Seq::<CobolField>::empty());
        assert(spec_walk_forest_total(Seq::<CobolField>::empty(), m, t1) == t1);
        assert(spec_walk_forest_total(s.take(1), m, t0) == t1);
    } else {
        let t1 = spec_walk_total(s[0], m, t0);
        assert(s.take(i + 1).drop_first() =~= s.drop_first().take(i));
        assert(s.take(i).drop_first() =~= s.drop_first().take(i - 1));
        assert(s.take(i + 1)[0] == s[0]);
        assert(s.take(i)[0] == s[0]);
        lemma_walk_forest_total_take_snoc(s.drop_first(), m, t1, i - 1);
        assert(s.drop_first()[i - 1] == s[i]);
        assert(spec_walk_forest_total(s.take(i + 1), m, t0) == spec_walk_forest_total(
            s.drop_first().take(i),
            m,
            t1,
        ));
        assert(spec_walk_forest_total(s.take(i), m, t0) == spec_walk_forest_total(
            s.drop_first().take(i - 1),
            m,
            t1,
        ));
    }
}

/// Walk one field with no inherited repetition.
pub fn process_field(
    field: &CobolField,
    output: &mut String,
    position: &mut u64,
    total_length: &mut u64,
    depth: usize,
) -> (r: Result<(), CobolError>)
    ensures
        r is Ok <==> spec_walk_fits(*field, 1, *old(position) as int),
        r is Ok ==> final(output)@ == old(output)@ + spec_walk_rows(
            *field,
            1,
            *old(position) as int,
        ),
        r is Ok ==> *final(position) == *old(position) + spec_advance(*field, 1),
        r is Ok ==> *final(total_length) == spec_walk_total(
            *field,
            1,
            *old(total_length) as int,
        ),
        old(output)@.is_prefix_of(final(output)@),
        r matches Err(e) ==> e is MalformedField,
{
    process_field_with_multiplier(field, output, position, total_length, depth, 1)
}

} // verus!

// ---------------------------------------------------------------------------
// The layout report.
// ---------------------------------------------------------------------------
verus! {

/// The summary row of a root field: its name, blank format and type
/// columns, its displayed total in the N-Len column, and its starting
/// position.
pub open spec fn spec_summary_row(f: CobolField, pos: int) -> Seq<char> {
    crate::text::pad_right(spec_trunc(f.name@, 29), 29) + " "@ + crate::text::spaces(14) + " "@
        + crate::text::spaces(14) + " "@ + crate::text::pad_left(
        crate::text::dec_seq(spec_advance(f, 1)),
        5,
    ) + " "@ + crate::text::pad_left(crate::text::dec_seq(pos), 5) + "      \n"@
}

/// The report body: for each root field its summary row, followed by the
/// detail rows of its children, which inherit the root's repetition count.
pub open spec fn spec_roots_text(s: Seq<CobolField>, pos: int) -> Seq<char>
    decreases s,
{
    if s.len() == 0 {
        Seq::empty()
    } else {
        spec_summary_row(s[0], pos) + spec_walk_forest_rows(s[0].children@, spec_occurs(s[0]), pos)
            + spec_roots_text(s.drop_first(), pos + spec_advance(s[0], 1))
    }
}

/// The whole walk fits the machine range, root by root.
pub open spec fn spec_roots_fits(s: Seq<CobolField>, pos: int) -> bool
    decreases s,
{
    s.len() == 0 || (spec_walk_fits(s[0], 1, pos) && spec_roots_fits(
        s.drop_first(),
        pos + spec_advance(s[0], 1),
    ))
}

/// The grand total the footer reports: the displayed total of the last
/// root field alone, or zero for an empty record.
pub open spec fn spec_grand_total(s: Seq<CobolField>) -> int
    decreases s,
{
    if s.len() == 0 {
        0
    } else if s.len() == 1 {
        spec_advance(s[0], 1)
    } else {
        spec_grand_total(s.drop_first())
    }
}

/// The whole report: a two-line header, the body, and a footer carrying
/// the grand total.
pub open spec fn spec_layout_text(st: CobolStructure) -> Seq<char> {
    "Data Name                     Format         Type           N-Len  Pos  F-Len\n"@
        + "----------------------------- -------------- -------------- ----- ----- -----\n"@
        + spec_roots_text(st.root_fields@, 1)
        + "                                                                        -----\n"@
        + "                                        Total            "@ + crate::text::pad_left(
        crate::text::dec_seq(spec_grand_total(st.root_fields@)),
        6,
    ) + "\n"@
}

/// Walk a forest of fields under one inherited multiplier, writing their
/// detail rows and advancing the cursor across them.
fn walk_forest(
    s: &Vec<CobolField>,
    output: &mut String,
    position: &mut u64,
    total_length: &mut u64,
    m: u64,
) -> (r: Result<(), CobolError>)
    ensures
        r is Ok <==> spec_walk_forest_fits(s@, m as int, *old(position) as int),
        r is Ok ==> final(output)@ == old(output)@ + spec_walk_forest_rows(
            s@,
            m as int,
            *old(position) as int,
        ),
        r is Ok ==> *final(position) == *old(position) + spec_advance_forest(s@, m as int),
        r is Ok ==> *final(total_length) == spec_walk_forest_total(
            s@,
            m as int,
            *old(total_length) as int,
        ),
        old(output)@.is_prefix_of(final(output)@),
        r matches Err(e) ==> e is MalformedField,
{
    let ghost ch: Seq<CobolField> = s@;
    let ghost pos0: int = *position as int;
    let ghost out0: Seq<char> = output@;
    let n = s.len();
    let mut i: usize = 0;
    proof {
        assert(ch.skip(0) =~= ch);
        assert(output@.subrange(0, output@.len() as int) =~= output@);
        assert(old(output)@.is_prefix_of(output@));
    }
    while i < n
        invariant
            0 <= i <= n,
            n == s@.len(),
            ch == s@,
            pos0 == *old(position) as int,
            out0 == old(output)@,
            old(output)@.is_prefix_of(output@),
            output@ + spec_walk_forest_rows(ch.skip(i as int), m as int, *position as int) =~~=
                out0 + spec_walk_forest_rows(ch, m as int, pos0),
            *position as int == pos0 + spec_advance_forest(ch.take(i as int), m as int),
            spec_walk_forest_fits(ch, m as int, pos0) <==> spec_walk_forest_fits(
                ch.skip(i as int),
                m as int,
                *position as int,
            ),
            *total_length as int == spec_walk_forest_total(
                ch.take(i as int),
                m as int,
                *old(total_length) as int,
            ),
        decreases n - i,
    {
        let ghost pos_i: int = *position as int;
        let ghost out_i: Seq<char> = output@;
        let ghost tot_i: int = *total_length as int;
        proof {
            assert(ch.skip(i as int).drop_first() =~= ch.skip(i + 1));
            assert(ch.skip(i as int)[0] == ch[i as int]);
            lemma_advance_forest_take_snoc(ch, m as int, i as int);
            lemma_walk_forest_total_take_snoc(ch, m as int, *old(total_length) as int, i as int);
        }
        let child = &s[i];
        match process_field_with_multiplier(child, output, position, total_length, 1, m) {
            Ok(u) => u,
            Err(e) => {
                proof {
                    assert(!spec_walk_fits(ch[i as int], m as int, pos_i));
                    assert(!spec_walk_forest_fits(ch.skip(i as int), m as int, pos_i));
                    assert(!spec_walk_forest_fits(ch, m as int, pos0));
                    crate::text::lemma_prefix_trans(old(output)@, out_i, output@);
                }
                return Err(e);
            },
        }
        proof {
            assert(output@.subrange(0, out_i.len() as int) =~= out_i);
            crate::text::lemma_prefix_trans(old(output)@, out_i, output@);
            let adv = spec_advance(ch[i as int], m as int);
            assert(spec_walk_forest_rows(ch.skip(i as int), m as int, pos_i) =~~= spec_walk_rows(
                ch[i as int],
                m as int,
                pos_i,
            ) + spec_walk_forest_rows(ch.skip(i + 1), m as int, pos_i + adv));
            assert(output@ =~~= out_i + spec_walk_rows(ch[i as int], m as int, pos_i));
            assert(output@ + spec_walk_forest_rows(ch.skip(i + 1), m as int, pos_i + adv) =~~=
                out_i + spec_walk_forest_rows(ch.skip(i as int), m as int, pos_i));
        }
        i = i + 1;
    }
    proof {
        assert(ch.skip(n as int) =~= Seq::<CobolField>::empty());
        assert(ch.take(n as int) =~= ch);
    }
    Ok(())
}

/// Render the layout report for a parsed record: header, one summary row
/// per root field with its children's detail rows beneath it, and a footer
/// whose grand total is the displayed total of the last root field.
pub fn generate_layout(structure: &CobolStructure) -> (r: Result<String, CobolError>)
    ensures
        r is Ok <==> spec_roots_fits(structure.root_fields@, 1),
        r matches Ok(out) ==> out@ == spec_layout_text(*structure),
        r matches Err(e) ==> e is MalformedField,
{
    let ghost roots: Seq<CobolField> = structure.root_fields@;
    let mut output = String::new();
    output.append("Data Name                     Format         Type           N-Len  Pos  F-Len\n");
    output.append("----------------------------- -------------- -------------- ----- ----- -----\n");
    let ghost header: Seq<char> = output@;

    let mut position: u64 = 1;
    let mut total_length: u64 = 0;
    let n = structure.root_fields.len();
    let mut i: usize = 0;
    proof {
        assert(roots.skip(0) =~= roots);
    }
    while i < n
        invariant
            0 <= i <= n,
            n == structure.root_fields@.len(),
            roots == structure.root_fields@,
            output@ + spec_roots_text(roots.skip(i as int), position as int) =~~= header
                + spec_roots_text(roots, 1),
            spec_roots_fits(roots, 1) <==> spec_roots_fits(
                roots.skip(i as int),
                position as int,
            ),
            i > 0 ==> total_length as int == spec_grand_total(roots.take(i as int)),
            spec_grand_total(roots) == if i < n {
                spec_grand_total(roots.skip(i as int))
            } else {
                total_length as int
            },
        decreases n - i,
    {
        let ghost pos_i: int = position as int;
        let ghost out_i: Seq<char> = output@;
        proof {
            assert(roots.skip(i as int).drop_first() =~= roots.skip(i + 1));
            assert(roots.skip(i as int)[0] == roots[i as int]);
        }
        let root = &structure.root_fields[i];
        let start = position;

        // first pass: compute the root's displayed total by walking it into
        // a scratch buffer
        let mut scratch = String::new();
        let mut scratch_total: u64 = 0;
        match process_field(root, &mut scratch, &mut position, &mut scratch_total, 0) {
            Ok(u) => u,
            Err(e) => {
                proof {
                    assert(!spec_walk_fits(roots[i as int], 1, pos_i));
                    assert(!spec_roots_fits(roots.skip(i as int), pos_i));
                }
                return Err(e);
            },
        }
        proof {
            lemma_advance_nonneg(roots[i as int], 1);
        }
        let end = position;
        let calculated_total = end - start;
        position = start;

        // the root's summary row
        let field_name = truncate_string(root.name.as_str(), 29);
        let mut row = crate::text::padded_right(&field_name, 29);
        row.append(" ");
        let sp14 = crate::text::space_string(14);
        row.append(sp14.as_str());
        row.append(" ");
        row.append(sp14.as_str());
        row.append(" ");
        let totn = crate::text::padded_left(&crate::text::format_u64(calculated_total), 5);
        row.append(totn.as_str());
        row.append(" ");
        let posn = crate::text::padded_left(&crate::text::format_u64(position), 5);
        row.append(posn.as_str());
        row.append("      \n");
        proof {
            assert(field_name@ == spec_trunc(roots[i as int].name@, 29));
            assert(row@ =~~= spec_summary_row(roots[i as int], pos_i));
        }
        output.append(row.as_str());

        // the children's detail rows, under the root's own repetition count
        let occ: u64 = match &root.occurs {
            Some(o) => *o as u64,
            None => 1,
        };
        proof {
            assert(occ as int == spec_eff_mult(roots[i as int], 1));
        }
        match walk_forest(&root.children, &mut output, &mut position, &mut total_length, occ) {
            Ok(u) => u,
            Err(e) => {
                proof {
                    assert(!spec_walk_fits(roots[i as int], 1, pos_i));
                    assert(!spec_roots_fits(roots.skip(i as int), pos_i));
                }
                return Err(e);
            },
        }
        position = end;
        total_length = calculated_total;
        proof {
            assert(roots.take(i + 1).drop_first() =~= roots.drop_first().take(i as int));
            lemma_grand_total_take(roots, i as int);
            assert(output@ + spec_roots_text(roots.skip(i + 1), position as int) =~~= out_i
                + spec_roots_text(roots.skip(i as int), pos_i));
        }
        i = i + 1;
    }
    proof {
        assert(roots.skip(n as int) =~= Seq::<CobolField>::empty());
    }

    output.append("                                                                        -----\n");
    output.append("                                        Total            ");
    let totn = crate::text::padded_left(&crate::text::format_u64(total_length), 6);
    output.append(totn.as_str());
    output.append("\n");
    proof {
        assert(output@ =~~= spec_layout_text(*structure));
    }
    Ok(output)
}

/// The grand total over the first `i + 1` roots is the advance of root `i`.
pub proof fn lemma_grand_total_take(s: Seq<CobolField>, i: int)
    requires
        0 <= i < s.len(),
    ensures
        spec_grand_total(s.take(i + 1)) == spec_advance(s[i], 1),
    decreases i,
{
    if i == 0 {
        assert(s.take(1)[0] == s[0]);
        assert(s.take(1).len() == 1);
    } else {
        assert(s.take(i + 1).drop_first() =~= s.drop_first().take(i));
        lemma_grand_total_take(s.drop_first(), i - 1);
        assert(s.drop_first()[i - 1] == s[i]);
    }
}

} // verus!

// ---------------------------------------------------------------------------
// Laws of the length and position rules.
// ---------------------------------------------------------------------------
verus! {

/// A group's unmultiplied length is the sum of its children's unmultiplied
/// lengths, untouched by any repetition count on the group or its
/// ancestors: repetition plays no part in `spec_field_length` at all.
pub proof fn lemma_group_length(f: CobolField)
    requires
        f.children@.len() > 0,
    ensures
        spec_field_length(f) == spec_children_length(f.children@),
        spec_children_length(f.children@) == spec_field_length(f.children@[0])
            + spec_children_length(f.children@.drop_first()),
{
}

/// A field's effective length is its unmultiplied length times its
/// effective multiplier; the effective multiplier is the field's own
/// repetition count (defaulting to one) times the multiplier inherited
/// from its parent; and the cursor advance of a leaf is exactly its
/// effective length.
pub proof fn lemma_effective_length(f: CobolField, inherited: int)
    ensures
        spec_effective_length(f, inherited) == spec_field_length(f) * spec_eff_mult(f, inherited),
        spec_eff_mult(f, inherited) == inherited * spec_occurs(f),
        f.children@.len() == 0 ==> spec_advance(f, inherited) == spec_effective_length(
            f,
            inherited,
        ),
{
}

/// Packed-decimal length law: under the packed usage a picture takes
/// `ceil((digits + 1) / 2)` bytes — one nibble per digit plus a sign
/// nibble, rounded up to whole bytes.
pub proof fn lemma_comp3_length(p: Seq<char>)
    ensures
        spec_comp_length(p, "COMP-3"@) == (spec_comp3_digits(p) + 2) / 2,
        2 * spec_comp_length(p, "COMP-3"@) >= spec_comp3_digits(p) + 1,
        2 * spec_comp_length(p, "COMP-3"@) <= spec_comp3_digits(p) + 2,
{
    lemma_picture_length_nonneg(p);
}

/// One visited leaf: where it starts, and its effective length.
pub ghost struct LeafVisit {
    pub pos: int,
    pub len: int,
}

/// The leaves met walking a field depth-first, each with its starting
/// position and effective length.  A childless field is itself a leaf.
pub open spec fn spec_leaves(f: CobolField, m: int, pos: int) -> Seq<LeafVisit>
    decreases f,
{
    if f.children@.len() == 0 {
        seq![LeafVisit { pos, len: spec_field_length(f) * spec_eff_mult(f, m) }]
    } else {
        spec_leaves_forest(f.children@, spec_eff_mult(f, m), pos)
    }
}

/// The leaves met walking a forest left to right.
pub open spec fn spec_leaves_forest(s: Seq<CobolField>, m: int, pos: int) -> Seq<LeafVisit>
    decreases s,
{
    if s.len() == 0 {
        Seq::empty()
    } else {
        spec_leaves(s[0], m, pos) + spec_leaves_forest(
            s.drop_first(),
            m,
            pos + spec_advance(s[0], m),
        )
    }
}

/// Position monotonicity: in the depth-first walk of a field, the first
/// leaf starts at the cursor; each later leaf starts exactly where its
/// predecessor ended — the predecessor's starting position plus the
/// predecessor's effective length; and the last leaf ends where the
/// field's whole advance ends.
pub proof fn lemma_leaf_positions(f: CobolField, m: int, pos: int)
    ensures
        spec_leaves(f, m, pos).len() >= 1,
        spec_leaves(f, m, pos)[0].pos == pos,
        spec_leaves(f, m, pos).last().pos + spec_leaves(f, m, pos).last().len == pos
            + spec_advance(f, m),
        forall|k: int|
            0 <= k < spec_leaves(f, m, pos).len() - 1 ==> spec_leaves(f, m, pos)[k + 1].pos
                == spec_leaves(f, m, pos)[k].pos + #[trigger] spec_leaves(f, m, pos)[k].len,
    decreases f,
{
    if f.children@.len() == 0 {
    } else {
        lemma_leaf_positions_forest(f.children@, spec_eff_mult(f, m), pos);
    }
}

/// Position monotonicity over a forest with at least one field.
pub proof fn lemma_leaf_positions_forest(s: Seq<CobolField>, m: int, pos: int)
    requires
        s.len() >= 1,
    ensures
        spec_leaves_forest(s, m, pos).len() >= 1,
        spec_leaves_forest(s, m, pos)[0].pos == pos,
        spec_leaves_forest(s, m, pos).last().pos + spec_leaves_forest(s, m, pos).last().len == pos
            + spec_advance_forest(s, m),
        forall|k: int|
            0 <= k < spec_leaves_forest(s, m, pos).len() - 1 ==> spec_leaves_forest(s, m, pos)[k
                + 1].pos == spec_leaves_forest(s, m, pos)[k].pos + #[trigger] spec_leaves_forest(
                s,
                m,
                pos,
            )[k].len,
    decreases s,
{
    let first = spec_leaves(s[0], m, pos);
    let rest = spec_leaves_forest(s.drop_first(), m, pos + spec_advance(s[0], m));
    let whole = spec_leaves_forest(s, m, pos);
    lemma_leaf_positions(s[0], m, pos);
    assert(whole == first + rest);
    if s.len() == 1 {
        assert(s.drop_first().len() == 0);
        assert(rest =~= Seq::<LeafVisit>::empty());
        assert(whole =~= first);
        assert(spec_advance_forest(s.drop_first(), m) == 0);
        assert forall|k: int| 0 <= k < whole.len() - 1 implies whole[k + 1].pos == whole[k].pos
            + #[trigger] whole[k].len by {
            assert(whole[k] == first[k]);
            assert(whole[k + 1] == first[k + 1]);
        }
    } else {
        lemma_leaf_positions_forest(s.drop_first(), m, pos + spec_advance(s[0], m));
        assert(whole.last() == rest.last());
        assert forall|k: int| 0 <= k < whole.len() - 1 implies whole[k + 1].pos == whole[k].pos
            + #[trigger] whole[k].len by {
            if k + 1 < first.len() {
                assert(whole[k] == first[k]);
                assert(whole[k + 1] == first[k + 1]);
            } else if k + 1 == first.len() {
                assert(whole[k] == first[k]);
                assert(whole[k] == first.last());
                assert(whole[k + 1] == rest[0]);
            } else {
                assert(whole[k] == rest[k - first.len()]);
                assert(whole[k + 1] == rest[k + 1 - first.len()]);
            }
        }
    }
}

} // verus!
