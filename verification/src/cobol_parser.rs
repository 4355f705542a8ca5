//! Reading a record description: the unsupported-feature guard, the
//! field-line grammar, and the level-number hierarchy builder.
use vstd::prelude::*;

use crate::text::{
    chars_of, ch_eq_ci, ch_is_alpha, ch_is_digit, ch_is_space, check_ci_at, contains_ci, digit_val,
    digits_end, digits_value, eq_ci, find_ci, is_alpha, is_digit, is_space, matches_ci_at,
    name_end, parse_digits, scan_digits, scan_name, scan_spaces, scan_token, skip_spaces,
    string_of_range, token_end,
};

verus! {

/// A fatal fault in the input: either a construct the system refuses to
/// handle, or a field line whose numeral cannot be read.
#[derive(Debug)]
pub enum CobolError {
    UnsupportedFeature { message: String },
    MalformedField { line_number: usize, text: String },
}

/// One declared item of a record description.
#[derive(Debug)]
pub struct CobolField {
    pub level: u32,
    pub name: String,
    pub picture: Option<String>,
    pub data_type: Option<String>,
    pub occurs: Option<u32>,
    pub children: Vec<CobolField>,
    pub line_number: usize,
}

/// The whole parsed record: its name and the fields at the outermost nesting.
#[derive(Debug)]
pub struct CobolStructure {
    pub name: String,
    pub root_fields: Vec<CobolField>,
}

/// What one field declaration says, with the nesting forgotten: the
/// mathematical content of a parsed line.
pub ghost struct FieldData {
    pub level: int,
    pub name: Seq<char>,
    pub picture: Option<Seq<char>>,
    pub usage: Option<Seq<char>>,
    pub occurs: Option<int>,
    pub line: int,
}

/// The declaration a field carries, independent of its children.
pub open spec fn data_of(f: CobolField) -> FieldData {
    FieldData {
        level: f.level as int,
        name: f.name@,
        picture: match f.picture {
            Some(p) => Some(p@),
            None => None,
        },
        usage: match f.data_type {
            Some(u) => Some(u@),
            None => None,
        },
        occurs: match f.occurs {
            Some(n) => Some(n as int),
            None => None,
        },
        line: f.line_number as int,
    }
}

// ---------------------------------------------------------------------------
// The field-line grammar.
//
// A line declares a field when it carries, after optional indentation, a
// two-digit level number, whitespace, and an identifier beginning with a
// letter.  After the identifier may follow, in this order and each optional:
// a `PIC` clause capturing a token free of whitespace and periods, a usage
// marker `COMP` with an optional dash-and-digits suffix, and an
// `OCCURS <n> TIME(S)` clause.  Keywords are read case-insensitively, and
// trailing text that fits no clause is ignored.
// ---------------------------------------------------------------------------
/// Position of the level number.
pub open spec fn lvl_start(l: Seq<char>) -> int {
    skip_spaces(l, 0)
}

/// The line opens with a two-digit level number followed by whitespace.
pub open spec fn has_level(l: Seq<char>) -> bool {
    let i = lvl_start(l);
    i + 2 < l.len() && is_digit(l[i]) && is_digit(l[i + 1]) && is_space(l[i + 2])
}

/// Position of the field name.
pub open spec fn name_start(l: Seq<char>) -> int {
    skip_spaces(l, lvl_start(l) + 3)
}

/// The line declares a field.
pub open spec fn line_is_field(l: Seq<char>) -> bool {
    has_level(l) && name_start(l) < l.len() && is_alpha(l[name_start(l)])
}

/// The declared level number.
pub open spec fn spec_level(l: Seq<char>) -> int {
    digit_val(l[lvl_start(l)]) * 10 + digit_val(l[lvl_start(l) + 1])
}

/// End of the field name.
pub open spec fn name_stop(l: Seq<char>) -> int {
    name_end(l, name_start(l))
}

/// The declared name.
pub open spec fn spec_name(l: Seq<char>) -> Seq<char> {
    l.subrange(name_start(l), name_stop(l))
}

/// Position where a `PIC` clause may begin.
pub open spec fn pic_pos(l: Seq<char>) -> int {
    skip_spaces(l, name_stop(l))
}

/// Start of the picture token.
pub open spec fn pic_token_start(l: Seq<char>) -> int {
    skip_spaces(l, pic_pos(l) + 3)
}

/// End of the picture token.
pub open spec fn pic_token_stop(l: Seq<char>) -> int {
    token_end(l, pic_token_start(l))
}

/// The line carries a `PIC` clause: the keyword, whitespace, and a
/// non-empty token.
pub open spec fn has_pic(l: Seq<char>) -> bool {
    let p = pic_pos(l);
    p + 3 < l.len() && eq_ci(l[p], 'p') && eq_ci(l[p + 1], 'i') && eq_ci(l[p + 2], 'c')
        && is_space(l[p + 3]) && pic_token_stop(l) > pic_token_start(l)
}

/// The captured picture token, if any.
pub open spec fn spec_picture(l: Seq<char>) -> Option<Seq<char>> {
    if has_pic(l) {
        Some(l.subrange(pic_token_start(l), pic_token_stop(l)))
    } else {
        None
    }
}

/// Position where a usage marker may begin.
pub open spec fn usage_pos(l: Seq<char>) -> int {
    if has_pic(l) {
        skip_spaces(l, pic_token_stop(l))
    } else {
        pic_pos(l)
    }
}

/// The line carries a usage marker: `COMP`, read case-insensitively.
pub open spec fn has_usage(l: Seq<char>) -> bool {
    let p = usage_pos(l);
    p + 4 <= l.len() && eq_ci(l[p], 'c') && eq_ci(l[p + 1], 'o') && eq_ci(l[p + 2], 'm') && eq_ci(
        l[p + 3],
        'p',
    )
}

/// End of the usage marker: `COMP` may continue with a dash and digits, or
/// with digits alone.
pub open spec fn usage_stop(l: Seq<char>) -> int {
    let q = usage_pos(l) + 4;
    if q < l.len() && l[q] == '-' && q + 1 < l.len() && is_digit(l[q + 1]) {
        digits_end(l, q + 1)
    } else if q < l.len() && is_digit(l[q]) {
        digits_end(l, q)
    } else {
        q
    }
}

/// The usage marker normalized to upper case: the keyword itself is the
/// only part that can differ in case.
pub open spec fn spec_usage(l: Seq<char>) -> Option<Seq<char>> {
    if has_usage(l) {
        Some(seq!['C', 'O', 'M', 'P'] + l.subrange(usage_pos(l) + 4, usage_stop(l)))
    } else {
        None
    }
}

/// Position where an `OCCURS` clause may begin.
pub open spec fn occurs_pos(l: Seq<char>) -> int {
    if has_usage(l) {
        skip_spaces(l, usage_stop(l))
    } else {
        usage_pos(l)
    }
}

/// Start of the repetition count.
pub open spec fn occ_digits_start(l: Seq<char>) -> int {
    skip_spaces(l, occurs_pos(l) + 6)
}

/// End of the repetition count.
pub open spec fn occ_digits_stop(l: Seq<char>) -> int {
    digits_end(l, occ_digits_start(l))
}

/// Position of the `TIME`/`TIMES` keyword.
pub open spec fn times_pos(l: Seq<char>) -> int {
    skip_spaces(l, occ_digits_stop(l))
}

/// The line carries an `OCCURS <n> TIME(S)` clause.
pub open spec fn has_occurs(l: Seq<char>) -> bool {
    let p = occurs_pos(l);
    let t = times_pos(l);
    p + 6 < l.len() && eq_ci(l[p], 'o') && eq_ci(l[p + 1], 'c') && eq_ci(l[p + 2], 'c') && eq_ci(
        l[p + 3],
        'u',
    ) && eq_ci(l[p + 4], 'r') && eq_ci(l[p + 5], 's') && is_space(l[p + 6]) && occ_digits_stop(l)
        > occ_digits_start(l) && occ_digits_stop(l) < l.len() && is_space(l[occ_digits_stop(l)])
        && t + 4 <= l.len() && eq_ci(l[t], 't') && eq_ci(l[t + 1], 'i') && eq_ci(l[t + 2], 'm')
        && eq_ci(l[t + 3], 'e')
}

/// The digits of the repetition count, if any.
pub open spec fn spec_occurs_digits(l: Seq<char>) -> Option<Seq<char>> {
    if has_occurs(l) {
        Some(l.subrange(occ_digits_start(l), occ_digits_stop(l)))
    } else {
        None
    }
}

/// The line declares a field whose repetition count does not fit in the
/// count's type: the one way a recognized line is malformed.
pub open spec fn line_is_malformed(l: Seq<char>) -> bool {
    line_is_field(l) && has_occurs(l) && digits_value(spec_occurs_digits(l)->0) > u32::MAX
}

/// Everything a well-formed field line declares.
pub open spec fn spec_line_field(l: Seq<char>, line_number: int) -> FieldData {
    FieldData {
        level: spec_level(l),
        name: spec_name(l),
        picture: spec_picture(l),
        usage: spec_usage(l),
        occurs: if has_occurs(l) {
            Some(digits_value(spec_occurs_digits(l)->0))
        } else {
            None
        },
        line: line_number,
    }
}

/// Parse one line, given as characters.  Lines that do not match the field
/// shape are no error: they are simply not fields.
pub fn parse_line_chars(l: &Vec<char>, line_number: usize) -> (r: Result<
    Option<CobolField>,
    CobolError,
>)
    ensures
        !line_is_field(l@) ==> r == Ok::<Option<CobolField>, CobolError>(None),
        line_is_field(l@) && line_is_malformed(l@) ==> (r matches Err(e) && e matches
            CobolError::MalformedField { line_number: ln, text } && ln == line_number && text@
            == l@),
        line_is_field(l@) && !line_is_malformed(l@) ==> (r matches Ok(of) && of matches Some(f)
            && data_of(f) == spec_line_field(l@, line_number as int) && f.children@.len() == 0),
{
    let n = l.len();
    let i0 = scan_spaces(l, 0);
    if !(n - i0 > 2 && ch_is_digit(l[i0]) && ch_is_digit(l[i0 + 1]) && ch_is_space(l[i0 + 2])) {
        return Ok(None);
    }
    let ns = scan_spaces(l, i0 + 3);
    if !(ns < n && ch_is_alpha(l[ns])) {
        return Ok(None);
    }
    let level: u32 = (ch_digit_val32(l[i0]) * 10 + ch_digit_val32(l[i0 + 1]));
    let ne = scan_name(l, ns);
    let name = string_of_range(l, ns, ne);

    // PIC clause
    let p = scan_spaces(l, ne);
    let mut picture: Option<String> = None;
    let mut after_pic: usize = p;
    if n - p > 3 && ch_eq_ci(l[p], 'p') && ch_eq_ci(l[p + 1], 'i') && ch_eq_ci(l[p + 2], 'c')
        && ch_is_space(l[p + 3]) {
        let ts = scan_spaces(l, p + 3);
        let te = scan_token(l, ts);
        if te > ts {
            picture = Some(string_of_range(l, ts, te));
            after_pic = scan_spaces(l, te);
        }
    }
    proof {
        assert(has_pic(l@) <==> picture is Some);
        assert(after_pic as int == usage_pos(l@));
    }

    // usage marker
    let mut data_type: Option<String> = None;
    let mut after_usage: usize = after_pic;
    let p = after_pic;
    if n - p >= 4 && ch_eq_ci(l[p], 'c') && ch_eq_ci(l[p + 1], 'o') && ch_eq_ci(l[p + 2], 'm')
        && ch_eq_ci(l[p + 3], 'p') {
        let q = p + 4;
        let stop: usize = if q < n && l[q] == '-' && n - q > 1 && ch_is_digit(l[q + 1]) {
            scan_digits(l, q + 1)
        } else if q < n && ch_is_digit(l[q]) {
            scan_digits(l, q)
        } else {
            q
        };
        let mut u = String::new();
        proof {
            reveal_strlit("COMP");
        }
        u.append("COMP");
        let tail = string_of_range(l, q, stop);
        u.append(tail.as_str());
        proof {
            assert(u@ =~= spec_usage(l@)->0);
        }
        data_type = Some(u);
        after_usage = scan_spaces(l, stop);
    }
    proof {
        assert(has_usage(l@) <==> data_type is Some);
        assert(after_usage as int == occurs_pos(l@));
    }

    // OCCURS clause
    let mut occurs: Option<u32> = None;
    let p = after_usage;
    if n - p > 6 && ch_eq_ci(l[p], 'o') && ch_eq_ci(l[p + 1], 'c') && ch_eq_ci(l[p + 2], 'c')
        && ch_eq_ci(l[p + 3], 'u') && ch_eq_ci(l[p + 4], 'r') && ch_eq_ci(l[p + 5], 's')
        && ch_is_space(l[p + 6]) {
        let ds = scan_spaces(l, p + 6);
        let de = scan_digits(l, ds);
        if de > ds && de < n && ch_is_space(l[de]) {
            let t = scan_spaces(l, de);
            if n - t >= 4 && ch_eq_ci(l[t], 't') && ch_eq_ci(l[t + 1], 'i') && ch_eq_ci(
                l[t + 2],
                'm',
            ) && ch_eq_ci(l[t + 3], 'e') {
                proof {
                    crate::text::lemma_digits_end_bounds(l@, ds as int);
                }
                let v = parse_digits(l, ds, de);
                match v {
                    Some(v) => {
                        if v <= 0xffff_ffff {
                            occurs = Some(v as u32);
                        } else {
                            proof {
                                assert(l@.subrange(0, l@.len() as int) =~= l@);
                            }
                            return Err(CobolError::MalformedField {
                                line_number,
                                text: string_of_range(l, 0, l.len()),
                            });
                        }
                    },
                    None => {
                        proof {
                            assert(l@.subrange(0, l@.len() as int) =~= l@);
                        }
                        return Err(CobolError::MalformedField {
                            line_number,
                            text: string_of_range(l, 0, l.len()),
                        });
                    },
                }
            }
        }
    }
    proof {
        assert(has_occurs(l@) <==> occurs is Some);
    }

    Ok(Some(CobolField { level, name, picture, data_type, occurs, children: Vec::new(), line_number }))
}

/// Digit value, widened for level arithmetic.
fn ch_digit_val32(c: char) -> (r: u32)
    requires
        is_digit(c),
    ensures
        r == digit_val(c),
{
    let v = crate::text::ch_digit_val(c);
    v as u32
}

} // verus!

// ---------------------------------------------------------------------------
// The hierarchy builder: level-number stack discipline.
// ---------------------------------------------------------------------------
verus! {

/// The declarations of a whole subtree, in depth-first order: the field
/// itself, followed by those of its children.
pub open spec fn flat_field(f: CobolField) -> Seq<FieldData>
    decreases f,
{
    seq![data_of(f)] + flat_forest(f.children@)
}

/// The declarations of a forest, in depth-first, left-to-right order.
pub open spec fn flat_forest(s: Seq<CobolField>) -> Seq<FieldData>
    decreases s,
{
    if s.len() == 0 {
        Seq::empty()
    } else {
        flat_field(s[0]) + flat_forest(s.drop_first())
    }
}

/// Number of nodes in the tree rooted at `f`, counting `f` itself.
pub open spec fn node_count(f: CobolField) -> int
    decreases f,
{
    1 + forest_node_count(f.children@)
}

/// Number of nodes over a forest of fields.
pub open spec fn forest_node_count(s: Seq<CobolField>) -> int
    decreases s,
{
    if s.len() == 0 {
        0
    } else {
        node_count(s[0]) + forest_node_count(s.drop_first())
    }
}

pub proof fn lemma_flat_forest_push(s: Seq<CobolField>, x: CobolField)
    ensures
        flat_forest(s.push(x)) == flat_forest(s) + flat_field(x),
    decreases s.len(),
{
    if s.len() == 0 {
        assert(s.push(x)[0] == x);
        assert(s.push(x).drop_first() =~= Seq::<CobolField>::empty());
        assert(flat_forest(Seq::<CobolField>::empty()) =~= Seq::<FieldData>::empty());
        assert(flat_forest(s.push(x)) =~= flat_field(x) + flat_forest(
            Seq::<CobolField>::empty(),
        ));
        assert(flat_forest(s) =~= Seq::<FieldData>::empty());
        assert(flat_forest(s.push(x)) =~= flat_forest(s) + flat_field(x));
    } else {
        assert(s.push(x).drop_first() =~= s.drop_first().push(x));
        assert(s.push(x)[0] == s[0]);
        lemma_flat_forest_push(s.drop_first(), x);
        assert(flat_forest(s.push(x)) =~= flat_forest(s) + flat_field(x));
    }
}

/// Every node of a forest stands for exactly one declaration in its
/// flattening: counting nodes is counting declarations.
pub proof fn lemma_forest_count(s: Seq<CobolField>)
    ensures
        forest_node_count(s) == flat_forest(s).len(),
    decreases s,
{
    if s.len() > 0 {
        lemma_field_count(s[0]);
        lemma_forest_count(s.drop_first());
    }
}

pub proof fn lemma_field_count(f: CobolField)
    ensures
        node_count(f) == flat_field(f).len(),
    decreases f,
{
    lemma_forest_count(f.children@);
}

/// A forest of bare declarations flattens to exactly those declarations.
pub proof fn lemma_flat_bare(s: Seq<CobolField>)
    requires
        forall|i: int| 0 <= i < s.len() ==> (#[trigger] s[i]).children@.len() == 0,
    ensures
        flat_forest(s) == s.map_values(|f: CobolField| data_of(f)),
    decreases s,
{
    let m = s.map_values(|f: CobolField| data_of(f));
    if s.len() == 0 {
        assert(flat_forest(s) =~= m);
    } else {
        lemma_flat_bare(s.drop_first());
        assert(s.drop_first().map_values(|f: CobolField| data_of(f)) =~= m.drop_first());
        assert(flat_field(s[0]) =~= seq![data_of(s[0])]);
        assert(flat_forest(s) =~= m);
    }
}

/// The lowest level number occurring among the declarations: the level of
/// the outermost nesting.  Every field at this level stands at the root,
/// so it is also the minimum root level.
pub open spec fn min_level(ds: Seq<FieldData>) -> int
    decreases ds.len(),
{
    if ds.len() == 0 {
        0
    } else if ds.len() == 1 {
        ds[0].level
    } else {
        let m = min_level(ds.drop_last());
        if ds.last().level < m {
            ds.last().level
        } else {
            m
        }
    }
}

/// The name of the first declaration at the given level, or empty when
/// there is none.
pub open spec fn first_name_at(ds: Seq<FieldData>, level: int) -> Seq<char>
    decreases ds.len(),
{
    if ds.len() == 0 {
        Seq::empty()
    } else if ds[0].level == level {
        ds[0].name
    } else {
        first_name_at(ds.drop_first(), level)
    }
}

/// The record's name: that of the first declaration whose level equals the
/// minimum root level, or empty when there are no declarations.
pub open spec fn spec_fields_name(ds: Seq<FieldData>) -> Seq<char> {
    first_name_at(ds, min_level(ds))
}

/// The record's name, read from the declarations: the name of the first
/// field whose level equals the lowest level occurring.
fn structure_name(fields: &Vec<CobolField>) -> (r: String)
    ensures
        r@ == spec_fields_name(fields@.map_values(|f: CobolField| data_of(f))),
{
    let ghost datas: Seq<FieldData> = fields@.map_values(|f: CobolField| data_of(f));
    let n = fields.len();
    if n == 0 {
        return String::new();
    }
    let mut min_lv: u32 = fields[0].level;
    let mut i: usize = 1;
    proof {
        assert(datas.take(1).len() == 1);
        assert(datas.take(1)[0] == datas[0]);
        assert(datas[0] == data_of(fields@[0]));
    }
    while i < n
        invariant
            1 <= i <= n,
            n == fields@.len(),
            datas == fields@.map_values(|f: CobolField| data_of(f)),
            min_lv as int == min_level(datas.take(i as int)),
        decreases n - i,
    {
        proof {
            assert(datas.take(i + 1).drop_last() =~= datas.take(i as int));
            assert(datas.take(i + 1).last() == datas[i as int]);
            assert(datas[i as int] == data_of(fields@[i as int]));
        }
        if fields[i].level < min_lv {
            min_lv = fields[i].level;
        }
        i = i + 1;
    }
    proof {
        assert(datas.take(n as int) =~= datas);
        assert(datas.skip(0) =~= datas);
    }
    let mut name = String::new();
    let mut found = false;
    let mut j: usize = 0;
    while j < n && !found
        invariant
            0 <= j <= n,
            n == fields@.len(),
            datas == fields@.map_values(|f: CobolField| data_of(f)),
            min_lv as int == min_level(datas),
            found ==> name@ == first_name_at(datas, min_level(datas)),
            !found ==> name@ == Seq::<char>::empty() && first_name_at(datas, min_level(datas))
                == first_name_at(datas.skip(j as int), min_level(datas)),
        decreases n - j, if found {
            0int
        } else {
            1int
        },
    {
        proof {
            assert(datas.skip(j as int).drop_first() =~= datas.skip(j + 1));
            assert(datas.skip(j as int)[0] == datas[j as int]);
            assert(datas[j as int] == data_of(fields@[j as int]));
        }
        if fields[j].level == min_lv {
            name = clone_string(&fields[j].name);
            found = true;
        } else {
            j = j + 1;
        }
    }
    proof {
        if !found {
            assert(datas.skip(n as int) =~= Seq::<FieldData>::empty());
        }
    }
    name
}

/// Reconstruct the field tree from the declarations in source order, by
/// level-number stack discipline: an incoming field closes every open field
/// of equal or higher level, and the closed field becomes a child of the
/// field left open beneath it, or a root.  The result is exactly the forest
/// `spec_build` prescribes, and flattens back to the input declarations.
pub fn build_structure(fields: Vec<CobolField>) -> (r: CobolStructure)
    requires
        forall|i: int| 0 <= i < fields@.len() ==> (#[trigger] fields@[i]).children@.len() == 0,
    ensures
        trees_of(r.root_fields@) == spec_build(fields@.map_values(|f: CobolField| data_of(f))),
        flat_forest(r.root_fields@) == flat_forest(fields@),
        r.name@ == spec_fields_name(fields@.map_values(|f: CobolField| data_of(f))),
{
    let ghost orig: Seq<CobolField> = fields@;
    let ghost datas: Seq<FieldData> = fields@.map_values(|f: CobolField| data_of(f));
    let name = structure_name(&fields);
    let mut fields = fields;
    let mut roots: Vec<CobolField> = Vec::new();
    let mut stack: Vec<CobolField> = Vec::new();
    let mut current_level: u32 = 0;
    let ghost k: int = 0;
    proof {
        assert(orig.skip(0) =~= orig);
        assert(datas.skip(0) =~= datas);
        assert(trees_of(stack@) =~= Seq::<SpecTree>::empty());
        assert(trees_of(roots@) =~= Seq::<SpecTree>::empty());
    }

    while fields.len() > 0
        invariant
            fields@ =~= orig.skip(k),
            0 <= k <= orig.len(),
            datas == orig.map_values(|f: CobolField| data_of(f)),
            forall|i: int| 0 <= i < orig.len() ==> (#[trigger] orig[i]).children@.len() == 0,
            flat_forest(roots@) + flat_forest(stack@) + flat_forest(fields@) =~= flat_forest(orig),
            spec_build(datas) == spec_build_rec(
                datas.skip(k),
                trees_of(stack@),
                trees_of(roots@),
            ),
            stack@.len() > 0 ==> current_level == stack@.last().level,
            stack@.len() == 0 ==> current_level == 0,
        decreases fields@.len(),
    {
        proof {
            assert(orig.skip(k).drop_first() =~= orig.skip(k + 1));
            assert(datas.skip(k).drop_first() =~= datas.skip(k + 1));
            assert(datas.skip(k)[0] == data_of(orig.skip(k)[0]));
        }
        let field = fields.remove(0);
        proof {
            assert(flat_forest(orig.skip(k)) =~= flat_field(field) + flat_forest(orig.skip(k + 1)));
        }
        let ghost close_target: (Seq<SpecTree>, Seq<SpecTree>) = spec_close_down_to(
            trees_of(stack@),
            trees_of(roots@),
            field.level as int,
        );
        while stack.len() > 0 && current_level >= field.level
            invariant
                flat_forest(roots@) + flat_forest(stack@) + flat_field(field) + flat_forest(
                    orig.skip(k + 1),
                ) =~= flat_forest(orig),
                close_target == spec_close_down_to(
                    trees_of(stack@),
                    trees_of(roots@),
                    field.level as int,
                ),
                stack@.len() > 0 ==> current_level == stack@.last().level,
                stack@.len() == 0 ==> current_level == 0,
            decreases stack@.len(),
        {
            let ghost old_stack: Seq<CobolField> = stack@;
            let ghost old_roots: Seq<CobolField> = roots@;
            let completed = stack.pop().unwrap();
            proof {
                assert(old_stack =~= stack@.push(completed));
                lemma_flat_forest_push(stack@, completed);
                lemma_trees_of_push(stack@, completed);
                assert(trees_of(old_stack).last() == tree_of(completed));
                assert(trees_of(old_stack).drop_last() =~= trees_of(stack@));
                lemma_trees_of_index(stack@);
                assert(tree_of(completed).data.level == completed.level as int);
            }
            if stack.len() == 0 {
                proof {
                    lemma_flat_forest_push(roots@, completed);
                    lemma_trees_of_push(roots@, completed);
                    assert(spec_close_one(trees_of(old_stack), trees_of(old_roots)) == (
                        trees_of(Seq::<CobolField>::empty()),
                        trees_of(old_roots).push(tree_of(completed)),
                    ));
                }
                roots.push(completed);
                current_level = 0;
            } else {
                let ghost old_stack2: Seq<CobolField> = stack@;
                let mut parent = stack.pop().unwrap();
                proof {
                    assert(old_stack2 =~= stack@.push(parent));
                    lemma_flat_forest_push(stack@, parent);
                    lemma_flat_forest_push(parent.children@, completed);
                    lemma_trees_of_push(stack@, parent);
                    assert(trees_of(old_stack2).last() == tree_of(parent));
                    assert(trees_of(old_stack2).drop_last() =~= trees_of(stack@));
                    lemma_trees_of_push(parent.children@, completed);
                }
                let ghost old_parent: CobolField = parent;
                parent.children.push(completed);
                proof {
                    assert(data_of(parent) == data_of(old_parent));
                    assert(flat_field(parent) =~= flat_field(old_parent) + flat_field(completed));
                    lemma_flat_forest_push(stack@, parent);
                    lemma_trees_of_push(stack@, parent);
                    assert(tree_of(parent) == SpecTree {
                        data: tree_of(old_parent).data,
                        children: tree_of(old_parent).children.push(tree_of(completed)),
                    });
                    assert(spec_close_one(trees_of(old_stack), trees_of(old_roots)) == (
                        trees_of(stack@).push(tree_of(parent)),
                        trees_of(old_roots),
                    ));
                }
                current_level = parent.level;
                stack.push(parent);
            }
        }
        proof {
            lemma_trees_of_index(stack@);
            if stack@.len() > 0 {
                assert(trees_of(stack@).last() == tree_of(stack@.last()));
            }
            assert(close_target == (trees_of(stack@), trees_of(roots@)));
            lemma_flat_forest_push(stack@, field);
            lemma_trees_of_push(stack@, field);
            assert(trees_of(field.children@) =~= Seq::<SpecTree>::empty());
            assert(tree_of(field) == SpecTree { data: data_of(field), children: Seq::empty() });
        }
        current_level = field.level;
        stack.push(field);
        proof {
            k = k + 1;
        }
    }

    while stack.len() > 0
        invariant
            flat_forest(roots@) + flat_forest(stack@) =~= flat_forest(orig),
            spec_build(datas) == spec_close_all(trees_of(stack@), trees_of(roots@)),
        decreases stack@.len(),
    {
        let ghost old_stack: Seq<CobolField> = stack@;
        let ghost old_roots: Seq<CobolField> = roots@;
        let completed = stack.pop().unwrap();
        proof {
            assert(old_stack =~= stack@.push(completed));
            lemma_flat_forest_push(stack@, completed);
            lemma_trees_of_push(stack@, completed);
            assert(trees_of(old_stack).last() == tree_of(completed));
            assert(trees_of(old_stack).drop_last() =~= trees_of(stack@));
        }
        if stack.len() == 0 {
            proof {
                lemma_flat_forest_push(roots@, completed);
                lemma_trees_of_push(roots@, completed);
                assert(spec_close_one(trees_of(old_stack), trees_of(old_roots)) == (
                    trees_of(Seq::<CobolField>::empty()),
                    trees_of(old_roots).push(tree_of(completed)),
                ));
            }
            roots.push(completed);
        } else {
            let ghost old_stack2: Seq<CobolField> = stack@;
            let mut parent = stack.pop().unwrap();
            proof {
                assert(old_stack2 =~= stack@.push(parent));
                lemma_flat_forest_push(stack@, parent);
                lemma_flat_forest_push(parent.children@, completed);
                lemma_trees_of_push(stack@, parent);
                assert(trees_of(old_stack2).last() == tree_of(parent));
                assert(trees_of(old_stack2).drop_last() =~= trees_of(stack@));
                lemma_trees_of_push(parent.children@, completed);
            }
            let ghost old_parent: CobolField = parent;
            parent.children.push(completed);
            proof {
                assert(data_of(parent) == data_of(old_parent));
                assert(flat_field(parent) =~= flat_field(old_parent) + flat_field(completed));
                lemma_flat_forest_push(stack@, parent);
                lemma_trees_of_push(stack@, parent);
                assert(tree_of(parent) == SpecTree {
                    data: tree_of(old_parent).data,
                    children: tree_of(old_parent).children.push(tree_of(completed)),
                });
                assert(spec_close_one(trees_of(old_stack), trees_of(old_roots)) == (
                    trees_of(stack@).push(tree_of(parent)),
                    trees_of(old_roots),
                ));
            }
            stack.push(parent);
        }
    }
    proof {
        assert(flat_forest(roots@) + flat_forest(stack@) =~= flat_forest(roots@));
        assert(trees_of(stack@) =~= Seq::<SpecTree>::empty());
    }
    CobolStructure { name, root_fields: roots }
}

/// Parsing is lossless in count: a structure whose flattening carries the
/// recognized declarations of a text — as every structure returned by the
/// whole parse does — has exactly one tree node per recognized field line.
pub proof fn lemma_parse_count_lossless(st: CobolStructure, content: Seq<char>)
    requires
        flat_forest(st.root_fields@) == spec_parsed_fields(content),
    ensures
        forest_node_count(st.root_fields@) == spec_parsed_fields(content).len(),
{
    lemma_forest_count(st.root_fields@);
}

/// The field's name, copied: the context a length error reports.
pub fn field_text(f: &CobolField) -> (r: String)
    ensures
        r@ == f.name@,
{
    clone_string(&f.name)
}

/// A copy of a string with the same characters.
fn clone_string(s: &String) -> (r: String)
    ensures
        r@ == s@,
{
    let mut out = String::new();
    out.append(s.as_str());
    proof {
        assert(out@ =~= s@);
    }
    out
}

} // verus!

// ---------------------------------------------------------------------------
// The unsupported-feature guard.
// ---------------------------------------------------------------------------
verus! {

/// An open-ended repetition range — `OCCURS <n> TO`, case-insensitively —
/// begins at position `i`.
pub open spec fn occurs_range_at(s: Seq<char>, i: int) -> bool {
    matches_ci_at(s, "occurs"@, i) && i + 6 < s.len() && is_space(s[i + 6]) && {
        let a = skip_spaces(s, i + 6);
        let b = digits_end(s, a);
        b > a && b < s.len() && is_space(s[b]) && {
            let t = skip_spaces(s, b);
            t + 2 <= s.len() && eq_ci(s[t], 't') && eq_ci(s[t + 1], 'o')
        }
    }
}

/// The text holds an open-ended repetition range somewhere.
pub open spec fn has_occurs_range(s: Seq<char>) -> bool {
    exists|i: int| occurs_range_at(s, i)
}

/// The text holds a construct the system refuses: a variable-length record
/// marker, an open-ended repetition range, or a storage overlay clause.
pub open spec fn guard_rejects(s: Seq<char>) -> bool {
    contains_ci(s, "varying in size"@) || has_occurs_range(s) || contains_ci(s, "redefines"@)
}

fn find_occurs_range(s: &Vec<char>) -> (r: bool)
    ensures
        r == has_occurs_range(s@),
{
    let n = s.len();
    let occ = chars_of("occurs");
    let mut i: usize = 0;
    while i < n
        invariant
            0 <= i <= n,
            n == s@.len(),
            occ@ == "occurs"@,
            forall|k: int| 0 <= k < i ==> !occurs_range_at(s@, k),
        decreases n - i,
    {
        if check_ci_at(s, &occ, i) && n - i > 6 && ch_is_space(s[i + 6]) {
            let a = scan_spaces(s, i + 6);
            let b = scan_digits(s, a);
            if b > a && b < n && ch_is_space(s[b]) {
                let t = scan_spaces(s, b);
                if n - t >= 2 && ch_eq_ci(s[t], 't') && ch_eq_ci(
                    s[t + 1],
                    'o',
                ) {
                    proof {
                        assert(occurs_range_at(s@, i as int));
                    }
                    return true;
                }
            }
        }
        proof {
            assert(!occurs_range_at(s@, i as int));
        }
        i = i + 1;
    }
    assert forall|k: int| !occurs_range_at(s@, k) by {
        if 0 <= k && k + 6 < s@.len() {
            assert(k < i);
        }
    }
    false
}

/// Scan the raw text for constructs the system refuses to handle, before
/// any parsing: variable-length records (`VARYING IN SIZE`, or an
/// `OCCURS <n> TO` range) and storage overlays (`REDEFINES`), found
/// anywhere in the text, in any case.
pub fn check_unsupported_features(content: &str) -> (r: Result<(), CobolError>)
    ensures
        r is Ok <==> !guard_rejects(content@),
        r matches Err(e) ==> (e matches CobolError::UnsupportedFeature { message } && message@
            == (if contains_ci(content@, "varying in size"@) || has_occurs_range(content@) {
                "ERROR: variable length files not implemented"@
            } else {
                "ERROR: redefines not implemented"@
            })),
{
    let v = chars_of(content);
    let varying = chars_of("varying in size");
    if find_ci(&v, &varying) {
        return Err(CobolError::UnsupportedFeature {
            message: String::from_str("ERROR: variable length files not implemented"),
        });
    }
    if find_occurs_range(&v) {
        return Err(CobolError::UnsupportedFeature {
            message: String::from_str("ERROR: variable length files not implemented"),
        });
    }
    let redefines = chars_of("redefines");
    if find_ci(&v, &redefines) {
        return Err(CobolError::UnsupportedFeature {
            message: String::from_str("ERROR: redefines not implemented"),
        });
    }
    Ok(())
}

} // verus!

// ---------------------------------------------------------------------------
// Splitting the input into lines, and the whole parse.
// ---------------------------------------------------------------------------
verus! {

/// A line with one trailing carriage return removed.
pub open spec fn strip_cr(l: Seq<char>) -> Seq<char> {
    if l.len() > 0 && l.last() == '\r' {
        l.drop_last()
    } else {
        l
    }
}

/// The lines of the text from position `p` on: pieces separated by line
/// feeds, each with a trailing carriage return removed, and no empty line
/// after a final line feed.
pub open spec fn spec_lines_from(s: Seq<char>, p: int) -> Seq<Seq<char>>
    decreases s.len() - p,
    via spec_lines_from_dec
{
    if p < 0 || p >= s.len() {
        Seq::empty()
    } else {
        let j = crate::text::newline_end(s, p);
        let line = strip_cr(s.subrange(p, j));
        if j >= s.len() {
            seq![line]
        } else {
            seq![line] + spec_lines_from(s, j + 1)
        }
    }
}

#[via_fn]
proof fn spec_lines_from_dec(s: Seq<char>, p: int) {
    if 0 <= p && p < s.len() {
        crate::text::lemma_newline_end_bounds(s, p);
    }
}

/// The lines of the text.
pub open spec fn spec_lines(s: Seq<char>) -> Seq<Seq<char>> {
    spec_lines_from(s, 0)
}

/// The views of a vector of character vectors.
pub open spec fn views_of(vs: Seq<Vec<char>>) -> Seq<Seq<char>> {
    vs.map_values(|x: Vec<char>| x@)
}

fn split_lines(v: &Vec<char>) -> (r: Vec<Vec<char>>)
    ensures
        views_of(r@) == spec_lines(v@),
{
    let n = v.len();
    let mut lines: Vec<Vec<char>> = Vec::new();
    let mut pos: usize = 0;
    let mut finished = false;
    proof {
        assert(views_of(lines@) =~= Seq::<Seq<char>>::empty());
    }
    while pos < n && !finished
        invariant
            0 <= pos <= n,
            n == v@.len(),
            views_of(lines@) + (if finished {
                Seq::<Seq<char>>::empty()
            } else {
                spec_lines_from(v@, pos as int)
            }) =~~= spec_lines(v@),
        decreases n - pos, if finished {
            0int
        } else {
            1int
        },
    {
        let j = crate::text::scan_newline(v, pos);
        let stop: usize = if j > pos && v[j - 1] == '\r' {
            j - 1
        } else {
            j
        };
        let line = crate::text::copy_range(v, pos, stop);
        proof {
            assert(line@ =~= strip_cr(v@.subrange(pos as int, j as int)));
            assert(views_of(lines@.push(line)) =~= views_of(lines@).push(line@));
        }
        lines.push(line);
        if j < n {
            pos = j + 1;
        } else {
            finished = true;
        }
    }
    lines
}

/// The declarations of every recognized field line, from line index `k` on;
/// line numbers are one-based.
pub open spec fn spec_fields_from(ls: Seq<Seq<char>>, k: int) -> Seq<FieldData>
    decreases ls.len() - k,
{
    if k < 0 || k >= ls.len() {
        Seq::empty()
    } else {
        (if line_is_field(ls[k]) {
            seq![spec_line_field(ls[k], k + 1)]
        } else {
            Seq::empty()
        }) + spec_fields_from(ls, k + 1)
    }
}

/// The declarations of every recognized field line of the text.
pub open spec fn spec_parsed_fields(s: Seq<char>) -> Seq<FieldData> {
    spec_fields_from(spec_lines(s), 0)
}

/// Index of the first malformed line at or after `k`, or the line count
/// when none is.
pub open spec fn first_malformed_from(ls: Seq<Seq<char>>, k: int) -> int
    decreases ls.len() - k,
{
    if k < 0 || k >= ls.len() {
        ls.len() as int
    } else if line_is_malformed(ls[k]) {
        k
    } else {
        first_malformed_from(ls, k + 1)
    }
}

/// Some recognized field line of the text is malformed.
pub open spec fn any_malformed(s: Seq<char>) -> bool {
    exists|k: int| 0 <= k < spec_lines(s).len() && line_is_malformed(#[trigger] spec_lines(s)[k])
}

/// Parse one line of text: a field declaration, or `None` for any line not
/// matching the field shape (blank lines, comments, file descriptors, and
/// unrecognized text alike).
pub fn parse_cobol_line(line: &str, line_number: usize) -> (r: Result<Option<CobolField>, CobolError>)
    ensures
        !line_is_field(line@) ==> r == Ok::<Option<CobolField>, CobolError>(None),
        line_is_field(line@) && line_is_malformed(line@) ==> (r matches Err(e) && e matches
            CobolError::MalformedField { line_number: ln, text } && ln == line_number && text@
            == line@),
        line_is_field(line@) && !line_is_malformed(line@) ==> (r matches Ok(of) && of matches Some(
            f,
        ) && data_of(f) == spec_line_field(line@, line_number as int) && f.children@.len() == 0),
{
    let v = chars_of(line);
    parse_line_chars(&v, line_number)
}

/// Parse a whole record description: guard the text, recognize its field
/// lines, and rebuild the field tree by level numbers.  The structure's
/// flattening carries exactly the recognized declarations, in source order.
pub fn parse_cobol_structure(content: &str) -> (r: Result<CobolStructure, CobolError>)
    ensures
        guard_rejects(content@) ==> (r matches Err(e) && e matches
            CobolError::UnsupportedFeature { message } && message@ == (if contains_ci(
            content@,
            "varying in size"@,
        ) || has_occurs_range(content@) {
            "ERROR: variable length files not implemented"@
        } else {
            "ERROR: redefines not implemented"@
        })),
        !guard_rejects(content@) && any_malformed(content@) ==> (r matches Err(e) && e matches
            CobolError::MalformedField { line_number: ln, text } && ln == first_malformed_from(
            spec_lines(content@),
            0,
        ) + 1 && text@ == spec_lines(content@)[first_malformed_from(spec_lines(content@), 0)]),
        !guard_rejects(content@) && !any_malformed(content@) ==> (r matches Ok(s) && trees_of(
            s.root_fields@,
        ) == spec_build(spec_parsed_fields(content@)) && flat_forest(s.root_fields@)
            == spec_parsed_fields(content@) && s.name@ == spec_fields_name(
            spec_parsed_fields(content@),
        )),
{
    let guarded = check_unsupported_features(content);
    if let Err(e) = guarded {
        return Err(e);
    }
    proof {
        assert(!guard_rejects(content@));
    }
    let v = chars_of(content);
    let lines = split_lines(&v);
    let ghost lvs: Seq<Seq<char>> = views_of(lines@);
    let mut fields: Vec<CobolField> = Vec::new();
    let mut k: usize = 0;
    proof {
        assert(fields@.map_values(|f: CobolField| data_of(f)) =~= Seq::<FieldData>::empty());
    }
    while k < lines.len()
        invariant
            0 <= k <= lines@.len(),
            lvs == views_of(lines@),
            lvs == spec_lines(v@),
            v@ == content@,
            !guard_rejects(content@),
            fields@.map_values(|f: CobolField| data_of(f)) + spec_fields_from(lvs, k as int)
                =~~= spec_fields_from(lvs, 0),
            forall|i: int| 0 <= i < fields@.len() ==> (#[trigger] fields@[i]).children@.len() == 0,
            forall|i: int| 0 <= i < k ==> !line_is_malformed(#[trigger] lvs[i]),
            first_malformed_from(lvs, 0) == first_malformed_from(lvs, k as int),
        decreases lines@.len() - k,
    {
        let r = parse_line_chars(&lines[k], k + 1);
        proof {
            assert(lines@[k as int]@ == lvs[k as int]);
        }
        match r {
            Err(e) => {
                proof {
                    assert(line_is_malformed(lvs[k as int]));
                    assert(any_malformed(content@));
                    assert(first_malformed_from(lvs, k as int) == k);
                }
                return Err(e);
            },
            Ok(Some(f)) => {
                proof {
                    assert(fields@.push(f).map_values(|g: CobolField| data_of(g)) =~= fields@
                        .map_values(|g: CobolField| data_of(g)).push(data_of(f)));
                }
                fields.push(f);
            },
            Ok(None) => {
            },
        }
        k = k + 1;
    }
    proof {
        assert(forall|i: int| 0 <= i < lvs.len() ==> !line_is_malformed(#[trigger] lvs[i]));
        assert(!any_malformed(content@));
        lemma_flat_bare(fields@);
    }
    let s = build_structure(fields);
    Ok(s)
}

} // verus!

// ---------------------------------------------------------------------------
// The builder's full functional specification: the same stack discipline,
// written over specification trees.  The flattening says which declarations
// the forest carries; this says exactly what shape they take.
// ---------------------------------------------------------------------------
verus! {

/// A field tree in specification form: a declaration and its subtrees.
pub ghost struct SpecTree {
    pub data: FieldData,
    pub children: Seq<SpecTree>,
}

/// The specification tree of a field.
pub open spec fn tree_of(f: CobolField) -> SpecTree
    decreases f,
{
    SpecTree { data: data_of(f), children: trees_of(f.children@) }
}

/// The specification trees of a forest, in order.
pub open spec fn trees_of(s: Seq<CobolField>) -> Seq<SpecTree>
    decreases s,
{
    if s.len() == 0 {
        Seq::empty()
    } else {
        seq![tree_of(s[0])] + trees_of(s.drop_first())
    }
}

pub proof fn lemma_trees_of_index(s: Seq<CobolField>)
    ensures
        trees_of(s).len() == s.len(),
        forall|i: int| 0 <= i < s.len() ==> trees_of(s)[i] == tree_of(#[trigger] s[i]),
    decreases s,
{
    if s.len() > 0 {
        lemma_trees_of_index(s.drop_first());
        assert forall|i: int| 0 <= i < s.len() implies trees_of(s)[i] == tree_of(
            #[trigger] s[i],
        ) by {
            if i > 0 {
                assert(trees_of(s)[i] == trees_of(s.drop_first())[i - 1]);
                assert(s.drop_first()[i - 1] == s[i]);
            }
        }
    }
}

pub proof fn lemma_trees_of_push(s: Seq<CobolField>, x: CobolField)
    ensures
        trees_of(s.push(x)) == trees_of(s).push(tree_of(x)),
{
    lemma_trees_of_index(s);
    lemma_trees_of_index(s.push(x));
    assert forall|i: int| 0 <= i < s.len() + 1 implies trees_of(s.push(x))[i] == trees_of(s).push(
        tree_of(x),
    )[i] by {
        if i < s.len() {
            assert(s.push(x)[i] == s[i]);
        } else {
            assert(s.push(x)[i] == x);
        }
    }
    assert(trees_of(s.push(x)) =~= trees_of(s).push(tree_of(x)));
}

/// Close the topmost open field: it becomes the last child of the open
/// field beneath it, or — with nothing beneath — the next root.
pub open spec fn spec_close_one(stack: Seq<SpecTree>, roots: Seq<SpecTree>) -> (
    Seq<SpecTree>,
    Seq<SpecTree>,
) {
    let t = stack.last();
    let rest = stack.drop_last();
    if rest.len() == 0 {
        (rest, roots.push(t))
    } else {
        let p = rest.last();
        (
            rest.drop_last().push(SpecTree { data: p.data, children: p.children.push(t) }),
            roots,
        )
    }
}

/// Close every open field whose level is at or above the incoming level.
pub open spec fn spec_close_down_to(
    stack: Seq<SpecTree>,
    roots: Seq<SpecTree>,
    level: int,
) -> (Seq<SpecTree>, Seq<SpecTree>)
    decreases stack.len(),
{
    if stack.len() > 0 && stack.last().data.level >= level {
        let (s2, r2) = spec_close_one(stack, roots);
        spec_close_down_to(s2, r2, level)
    } else {
        (stack, roots)
    }
}

/// Close every open field that remains once the input is exhausted.
pub open spec fn spec_close_all(stack: Seq<SpecTree>, roots: Seq<SpecTree>) -> Seq<SpecTree>
    decreases stack.len(),
{
    if stack.len() == 0 {
        roots
    } else {
        let (s2, r2) = spec_close_one(stack, roots);
        spec_close_all(s2, r2)
    }
}

/// The stack discipline over declarations: each incoming declaration first
/// closes the open fields of equal or higher level, and is pushed open with
/// no children yet.
pub open spec fn spec_build_rec(
    ds: Seq<FieldData>,
    stack: Seq<SpecTree>,
    roots: Seq<SpecTree>,
) -> Seq<SpecTree>
    decreases ds.len(),
{
    if ds.len() == 0 {
        spec_close_all(stack, roots)
    } else {
        let (s2, r2) = spec_close_down_to(stack, roots, ds[0].level);
        spec_build_rec(
            ds.drop_first(),
            s2.push(SpecTree { data: ds[0], children: Seq::empty() }),
            r2,
        )
    }
}

/// The forest the hierarchy builder produces from a sequence of
/// declarations.
pub open spec fn spec_build(ds: Seq<FieldData>) -> Seq<SpecTree> {
    spec_build_rec(ds, Seq::empty(), Seq::empty())
}

} // verus!
