//! The memory-map document: a JSON object of the documented shape,
//! `{"logical_blocks": [{"name", "id", "destination": {"bank_a": region,
//! "bank_b": region}}, ...]}` with a region written as `{"path", "offset",
//! "size"}`. Members appear in the documented order; whitespace may stand
//! between tokens; strings carry no escapes.

use vstd::prelude::*;
use crate::memory::Banks;
use crate::memory::BlockCfg;
use crate::memory::LogicalBlock;
use crate::memory::LogicalBlockCfg;
use crate::memory::LogicalBlockDestination;
use crate::memory::Region;
use crate::text::chars_to_string_range;
use crate::text::push_char;
use crate::text::str_to_chars;
use vstd::string::StrSliceExecFns;
use vstd::string::StringExecFns;

verus! {

/// JSON whitespace.
pub open spec fn is_j_ws(c: char) -> bool {
    c == ' ' || c == '\t' || c == '\r' || c == '\n'
}

/// A decimal digit.
pub open spec fn is_digit(c: char) -> bool {
    '0' <= c && c <= '9'
}

/// The value of a decimal digit.
pub open spec fn digit_val(c: char) -> int {
    c as int - '0' as int
}

/// The digit with the given value.
pub open spec fn digit_char(d: int) -> char {
    ((d + 48) as u8) as char
}

/// The first position at or after `i` that does not hold JSON whitespace.
pub open spec fn spec_jskip(s: Seq<char>, i: int) -> int
    decreases s.len() - i,
{
    if 0 <= i < s.len() && is_j_ws(s[i]) {
        spec_jskip(s, i + 1)
    } else {
        i
    }
}

/// The first position at or after `i` that ends a string body: a quote or
/// a backslash.
pub open spec fn spec_str_end(s: Seq<char>, i: int) -> int
    decreases s.len() - i,
{
    if 0 <= i < s.len() && s[i] != '"' && s[i] != '\\' {
        spec_str_end(s, i + 1)
    } else {
        i
    }
}

/// The literal `lit` expected at `i`.
pub open spec fn spec_expect(s: Seq<char>, i: int, lit: Seq<char>) -> Option<int> {
    if 0 <= i && i + lit.len() <= s.len() && s.subrange(i, i + lit.len()) == lit {
        Some(i + lit.len())
    } else {
        None
    }
}

/// The escape-free string that starts at `i` with its opening quote.
pub open spec fn spec_parse_jstring(s: Seq<char>, i: int) -> Option<(Seq<char>, int)> {
    if 0 <= i < s.len() && s[i] == '"' {
        if spec_str_end(s, i + 1) < s.len() && s[spec_str_end(s, i + 1)] == '"' {
            Some((s.subrange(i + 1, spec_str_end(s, i + 1)), spec_str_end(s, i + 1) + 1))
        } else {
            None
        }
    } else {
        None
    }
}

/// The digits from `i` folded left into a value, refused beyond `max`.
pub open spec fn spec_num_rec(s: Seq<char>, i: int, acc: int, max: int) -> Option<(int, int)>
    decreases s.len() - i,
{
    if 0 <= i < s.len() && is_digit(s[i]) {
        if acc * 10 + digit_val(s[i]) > max {
            None
        } else {
            spec_num_rec(s, i + 1, acc * 10 + digit_val(s[i]), max)
        }
    } else {
        Some((acc, i))
    }
}

/// The decimal number that starts at `i`, at most `max`.
pub open spec fn spec_parse_num(s: Seq<char>, i: int, max: int) -> Option<(int, int)> {
    if 0 <= i < s.len() && is_digit(s[i]) {
        spec_num_rec(s, i, 0, max)
    } else {
        None
    }
}

/// Skip whitespace, expect the quoted key, skip whitespace, expect the
/// colon, skip whitespace: the position of the member's value.
pub open spec fn spec_member_start(s: Seq<char>, i: int, key: Seq<char>) -> Option<int> {
    match spec_expect(s, spec_jskip(s, i), key) {
        None => None,
        Some(a) => match spec_expect(s, spec_jskip(s, a), ":"@) {
            None => None,
            Some(b) => Some(spec_jskip(s, b)),
        },
    }
}

/// The region object that starts at `i`.
pub open spec fn spec_parse_region(s: Seq<char>, i: int) -> Option<(Region, int)> {
    match spec_expect(s, i, "{"@) {
        None => None,
        Some(a) => match spec_member_start(s, a, "\"path\""@) {
            None => None,
            Some(b) => match spec_parse_jstring(s, b) {
                None => None,
                Some((path, c)) => match spec_expect(s, spec_jskip(s, c), ","@) {
                    None => None,
                    Some(d) => match spec_member_start(s, d, "\"offset\""@) {
                        None => None,
                        Some(e) => match spec_parse_num(s, e, u64::MAX as int) {
                            None => None,
                            Some((offset, f)) => match spec_expect(s, spec_jskip(s, f), ","@) {
                                None => None,
                                Some(g) => match spec_member_start(s, g, "\"size\""@) {
                                    None => None,
                                    Some(h) => match spec_parse_num(s, h, usize::MAX as int) {
                                        None => None,
                                        Some((size, j)) => match spec_expect(
                                            s,
                                            spec_jskip(s, j),
                                            "}"@,
                                        ) {
                                            None => None,
                                            Some(k) => Some((Region { path, offset, size }, k)),
                                        },
                                    },
                                },
                            },
                        },
                    },
                },
            },
        },
    }
}

/// The two-bank destination object that starts at `i`.
pub open spec fn spec_parse_banks(s: Seq<char>, i: int) -> Option<((Region, Region), int)> {
    match spec_expect(s, i, "{"@) {
        None => None,
        Some(a) => match spec_member_start(s, a, "\"bank_a\""@) {
            None => None,
            Some(b) => match spec_parse_region(s, b) {
                None => None,
                Some((bank_a, c)) => match spec_expect(s, spec_jskip(s, c), ","@) {
                    None => None,
                    Some(d) => match spec_member_start(s, d, "\"bank_b\""@) {
                        None => None,
                        Some(e) => match spec_parse_region(s, e) {
                            None => None,
                            Some((bank_b, f)) => match spec_expect(s, spec_jskip(s, f), "}"@) {
                                None => None,
                                Some(g) => Some(((bank_a, bank_b), g)),
                            },
                        },
                    },
                },
            },
        },
    }
}

/// The configured-block object that starts at `i`.
pub open spec fn spec_parse_block(s: Seq<char>, i: int) -> Option<(BlockCfg, int)> {
    match spec_expect(s, i, "{"@) {
        None => None,
        Some(a) => match spec_member_start(s, a, "\"name\""@) {
            None => None,
            Some(b) => match spec_parse_jstring(s, b) {
                None => None,
                Some((name, c)) => match spec_expect(s, spec_jskip(s, c), ","@) {
                    None => None,
                    Some(d) => match spec_member_start(s, d, "\"id\""@) {
                        None => None,
                        Some(e) => match spec_parse_jstring(s, e) {
                            None => None,
                            Some((id, f)) => match spec_expect(s, spec_jskip(s, f), ","@) {
                                None => None,
                                Some(g) => match spec_member_start(s, g, "\"destination\""@) {
                                    None => None,
                                    Some(h) => match spec_parse_banks(s, h) {
                                        None => None,
                                        Some(((bank_a, bank_b), j)) => match spec_expect(
                                            s,
                                            spec_jskip(s, j),
                                            "}"@,
                                        ) {
                                            None => None,
                                            Some(k) => Some(
                                                (BlockCfg { name, id, bank_a, bank_b }, k),
                                            ),
                                        },
                                    },
                                },
                            },
                        },
                    },
                },
            },
        },
    }
}

/// The blocks after the first one: `, block` repeated until `]`.
pub open spec fn spec_parse_more_blocks(s: Seq<char>, i: int) -> Option<(Seq<BlockCfg>, int)>
    decreases s.len() - i,
{
    let j = spec_jskip(s, i);
    if 0 <= j < s.len() && s[j] == ']' {
        Some((Seq::empty(), j + 1))
    } else if 0 <= j < s.len() && s[j] == ',' {
        match spec_parse_block(s, spec_jskip(s, j + 1)) {
            None => None,
            Some((block, a)) => {
                if i < a <= s.len() {
                    match spec_parse_more_blocks(s, a) {
                        None => None,
                        Some((rest, e)) => Some((seq![block] + rest, e)),
                    }
                } else {
                    None
                }
            },
        }
    } else {
        None
    }
}

/// The block array that starts at `i`.
pub open spec fn spec_parse_blocks(s: Seq<char>, i: int) -> Option<(Seq<BlockCfg>, int)> {
    match spec_expect(s, i, "["@) {
        None => None,
        Some(a) => {
            let j = spec_jskip(s, a);
            if 0 <= j < s.len() && s[j] == ']' {
                Some((Seq::empty(), j + 1))
            } else {
                match spec_parse_block(s, j) {
                    None => None,
                    Some((block, b)) => match spec_parse_more_blocks(s, b) {
                        None => None,
                        Some((rest, e)) => Some((seq![block] + rest, e)),
                    },
                }
            }
        },
    }
}

/// The whole memory-map document.
pub open spec fn spec_parse_cfg(s: Seq<char>) -> Option<Seq<BlockCfg>> {
    match spec_expect(s, spec_jskip(s, 0), "{"@) {
        None => None,
        Some(a) => match spec_member_start(s, a, "\"logical_blocks\""@) {
            None => None,
            Some(b) => match spec_parse_blocks(s, b) {
                None => None,
                Some((blocks, c)) => match spec_expect(s, spec_jskip(s, c), "}"@) {
                    None => None,
                    Some(d) => {
                        if spec_jskip(s, d) == s.len() {
                            Some(blocks)
                        } else {
                            None
                        }
                    },
                },
            },
        },
    }
}

/// The canonical decimal digits of a non-negative value.
pub open spec fn spec_render_num(v: int) -> Seq<char>
    decreases v,
{
    if v < 10 {
        seq![digit_char(v)]
    } else {
        spec_render_num(v / 10).push(digit_char(v % 10))
    }
}

/// The canonical text of a region.
pub open spec fn spec_render_region(r: Region) -> Seq<char> {
    "{\"path\":\""@ + r.path + "\",\"offset\":"@ + spec_render_num(r.offset) + ",\"size\":"@
        + spec_render_num(r.size) + "}"@
}

/// The canonical text of a configured block.
pub open spec fn spec_render_block(b: BlockCfg) -> Seq<char> {
    "{\"name\":\""@ + b.name + "\",\"id\":\""@ + b.id + "\",\"destination\":{\"bank_a\":"@
        + spec_render_region(b.bank_a) + ",\"bank_b\":"@ + spec_render_region(b.bank_b) + "}}"@
}

/// The canonical text of the block list, comma-separated.
pub open spec fn spec_render_blocks(blocks: Seq<BlockCfg>) -> Seq<char>
    decreases blocks.len(),
{
    if blocks.len() == 0 {
        Seq::empty()
    } else if blocks.len() == 1 {
        spec_render_block(blocks[0])
    } else {
        spec_render_block(blocks[0]) + ","@ + spec_render_blocks(blocks.drop_first())
    }
}

/// The canonical text of the whole memory-map document.
pub open spec fn spec_render_cfg(blocks: Seq<BlockCfg>) -> Seq<char> {
    "{\"logical_blocks\":["@ + spec_render_blocks(blocks) + "]}"@
}

/// A string that the document syntax can carry: no quote, no backslash.
pub open spec fn json_safe(s: Seq<char>) -> bool {
    forall|i: int| 0 <= i < s.len() ==> s[i] != '"' && s[i] != '\\'
}

/// A configuration the renderer can write down faithfully: safe strings
/// and machine-range numbers.
pub open spec fn cfg_renderable(blocks: Seq<BlockCfg>) -> bool {
    forall|i: int|
        0 <= i < blocks.len() ==> {
            let b = #[trigger] blocks[i];
            &&& json_safe(b.name)
            &&& json_safe(b.id)
            &&& json_safe(b.bank_a.path)
            &&& json_safe(b.bank_b.path)
            &&& 0 <= b.bank_a.offset <= u64::MAX
            &&& 0 <= b.bank_a.size <= usize::MAX
            &&& 0 <= b.bank_b.offset <= u64::MAX
            &&& 0 <= b.bank_b.size <= usize::MAX
        }
}

/// Powers of ten.
pub open spec fn pow10(k: nat) -> int
    decreases k,
{
    if k == 0 {
        1int
    } else {
        10 * pow10((k - 1) as nat)
    }
}

/// A digit character carries its value.
proof fn lemma_digit_char(d: int)
    requires
        0 <= d < 10,
    ensures
        is_digit(digit_char(d)),
        digit_val(digit_char(d)) == d,
{
    assert(0 <= d + 48 < 256);
    assert(((d + 48) as u8) as int == d + 48);
    assert((((d + 48) as u8) as char) as int == d + 48);
}

/// The canonical digits of a value are digits, and there is at least one.
proof fn lemma_render_num_digits(v: int)
    requires
        v >= 0,
    ensures
        spec_render_num(v).len() >= 1,
        forall|t: int| 0 <= t < spec_render_num(v).len() ==> is_digit(#[trigger] spec_render_num(v)[t]),
    decreases v,
{
    if v < 10 {
        lemma_digit_char(v);
    } else {
        vstd::arithmetic::div_mod::lemma_fundamental_div_mod(v, 10);
        lemma_render_num_digits(v / 10);
        lemma_digit_char(v % 10);
    }
}

/// Folding the canonical digits of `v` into an accumulator steps the scan
/// to the end of the digits and multiplies the accumulator past them.
proof fn lemma_num_rec_render(s: Seq<char>, i: int, e: int, acc: int, v: int, max: int)
    requires
        0 <= i <= e <= s.len(),
        s.subrange(i, e) == spec_render_num(v),
        v >= 0,
        acc >= 0,
        acc * pow10((e - i) as nat) + v <= max,
    ensures
        spec_num_rec(s, i, acc, max) == spec_num_rec(s, e, acc * pow10((e - i) as nat) + v, max),
        acc * pow10((e - i) as nat) + v >= 0,
    decreases v,
{
    let k = e - i;
    lemma_render_num_digits(v);
    assert(k == spec_render_num(v).len());
    if v < 10 {
        assert(k == 1);
        assert(s[i] == spec_render_num(v)[0]);
        lemma_digit_char(v);
        assert(pow10(0) == 1);
        assert(pow10(1) == 10);
        assert(spec_num_rec(s, i, acc, max) == spec_num_rec(s, i + 1, acc * 10 + v, max));
    } else {
        vstd::arithmetic::div_mod::lemma_fundamental_div_mod(v, 10);
        let hi = v / 10;
        let lo = v % 10;
        assert(spec_render_num(v) == spec_render_num(hi).push(digit_char(lo)));
        assert(spec_render_num(hi).len() == k - 1);
        assert(s.subrange(i, e - 1) =~= spec_render_num(hi)) by {
            assert forall|t: int| 0 <= t < k - 1 implies s.subrange(i, e - 1)[t]
                == spec_render_num(hi)[t] by {
                assert(s.subrange(i, e)[t] == spec_render_num(v)[t]);
            }
        }
        let a1 = acc * pow10((k - 1) as nat) + hi;
        assert(pow10(k as nat) == 10 * pow10((k - 1) as nat));
        assert(a1 * 10 + lo == acc * pow10(k as nat) + v) by (nonlinear_arith)
            requires
                a1 == acc * pow10((k - 1) as nat) + hi,
                pow10(k as nat) == 10 * pow10((k - 1) as nat),
                v == 10 * hi + lo,
        {}
        assert(pow10((k - 1) as nat) >= 1) by {
            lemma_pow10_pos((k - 1) as nat);
        }
        assert(a1 >= 0) by (nonlinear_arith)
            requires
                acc >= 0,
                hi >= 0,
                pow10((k - 1) as nat) >= 1,
                a1 == acc * pow10((k - 1) as nat) + hi,
        {}
        assert(a1 * 10 + lo >= a1) by (nonlinear_arith)
            requires
                a1 >= 0,
                lo >= 0,
        {}
        assert(a1 + v <= a1 * 10 + lo || true);
        lemma_num_rec_render(s, i, e - 1, acc, hi, max);
        assert(spec_num_rec(s, i, acc, max) == spec_num_rec(s, e - 1, a1, max));
        assert(s[e - 1] == spec_render_num(v)[k - 1]);
        assert(spec_render_num(v)[k - 1] == digit_char(lo));
        lemma_digit_char(lo);
        assert(a1 * 10 + digit_val(s[e - 1]) <= max);
        assert(spec_num_rec(s, e - 1, a1, max) == spec_num_rec(s, e, a1 * 10 + lo, max));
    }
}

proof fn lemma_pow10_pos(k: nat)
    ensures
        pow10(k) >= 1,
    decreases k,
{
    if k > 0 {
        lemma_pow10_pos((k - 1) as nat);
    }
}

/// Parsing the canonical digits of `v` yields `v` and stops right after
/// them, when a non-digit follows.
proof fn lemma_parse_num_render(s: Seq<char>, i: int, e: int, v: int, max: int)
    requires
        0 <= i <= e <= s.len(),
        s.subrange(i, e) == spec_render_num(v),
        0 <= v <= max,
        e == s.len() || !is_digit(s[e]),
    ensures
        spec_parse_num(s, i, max) == Some((v, e)),
{
    lemma_render_num_digits(v);
    assert(s[i] == spec_render_num(v)[0]);
    lemma_num_rec_render(s, i, e, 0, v, max);
    assert(pow10((e - i) as nat) * 0 + v == v) by (nonlinear_arith) {}
    assert(0 * pow10((e - i) as nat) + v == v) by (nonlinear_arith) {}
    assert(spec_num_rec(s, e, v, max) == Some((v, e)));
}

/// The scan for the end of a string body stops exactly at the first
/// terminator.
proof fn lemma_str_end_at(s: Seq<char>, i: int, e: int)
    requires
        0 <= i <= e < s.len(),
        forall|j: int| i <= j < e ==> s[j] != '"' && s[j] != '\\',
        s[e] == '"' || s[e] == '\\',
    ensures
        spec_str_end(s, i) == e,
    decreases e - i,
{
    if i < e {
        lemma_str_end_at(s, i + 1, e);
    }
}

/// Parsing a quoted safe string yields its body and stops after the
/// closing quote.
proof fn lemma_parse_jstring_render(s: Seq<char>, i: int, content: Seq<char>)
    requires
        0 <= i < s.len(),
        s[i] == '"',
        i + 1 + content.len() < s.len(),
        s.subrange(i + 1, i + 1 + content.len()) == content,
        json_safe(content),
        s[i + 1 + content.len()] == '"',
    ensures
        spec_parse_jstring(s, i) == Some((content, i + content.len() + 2)),
{
    let e = i + 1 + content.len();
    assert forall|j: int| i + 1 <= j < e implies s[j] != '"' && s[j] != '\\' by {
        assert(s[j] == content[j - (i + 1)]);
    }
    lemma_str_end_at(s, i + 1, e);
    assert(s.subrange(i + 1, e) == content);
}

/// Parsing a canonically rendered region yields the region back and stops
/// right after it.
proof fn lemma_parse_region_render(s: Seq<char>, i: int, r: Region)
    requires
        0 <= i,
        i + spec_render_region(r).len() <= s.len(),
        s.subrange(i, i + spec_render_region(r).len()) == spec_render_region(r),
        json_safe(r.path),
        0 <= r.offset <= u64::MAX as int,
        0 <= r.size <= usize::MAX as int,
    ensures
        spec_parse_region(s, i) == Some((r, i + spec_render_region(r).len())),
{
    reveal_strlit("{\"path\":\"");
    reveal_strlit("\",\"offset\":");
    reveal_strlit(",\"size\":");
    reveal_strlit("}");
    reveal_strlit("{");
    reveal_strlit("\"path\"");
    reveal_strlit(":");
    reveal_strlit(",");
    reveal_strlit("\"offset\"");
    reveal_strlit("\"size\"");
    let a = "{\"path\":\""@;
    let b = "\",\"offset\":"@;
    let c = ",\"size\":"@;
    let d = "}"@;
    let n1 = spec_render_num(r.offset);
    let n2 = spec_render_num(r.size);
    let w = spec_render_region(r);
    let lp = r.path.len() as int;
    let l1 = n1.len() as int;
    let l2 = n2.len() as int;
    lemma_render_num_digits(r.offset);
    lemma_render_num_digits(r.size);
    assert(a.len() == 9);
    assert(b.len() == 11);
    assert(c.len() == 8);
    assert(d.len() == 1);
    assert(w.len() == 9 + lp + 11 + l1 + 8 + l2 + 1);
    assert forall|t: int| 0 <= t < w.len() implies s[i + t] == w[t] by {
        assert(s.subrange(i, i + w.len())[t] == w[t]);
    }
    let p1 = i + 9;
    let p2 = p1 + lp;
    let p3 = p2 + 11;
    let p4 = p3 + l1;
    let p5 = p4 + 8;
    let p6 = p5 + l2;
    // The opening brace and the path member's key and colon.
    assert(s.subrange(i, i + 1) =~= "{"@) by {
        assert(s[i] == w[0]);
    }
    assert(spec_expect(s, i, "{"@) == Some(i + 1));
    assert(s[i + 1] == '"') by {
        assert(s[i + 1] == w[1]);
    }
    assert(spec_jskip(s, i + 1) == i + 1);
    assert(s.subrange(i + 1, i + 7) =~= "\"path\""@) by {
        assert forall|t: int| 0 <= t < 6 implies s.subrange(i + 1, i + 7)[t] == "\"path\""@[t] by {
            assert(s[i + 1 + t] == w[1 + t]);
        }
    }
    assert(spec_expect(s, i + 1, "\"path\""@) == Some(i + 7));
    assert(s[i + 7] == ':') by {
        assert(s[i + 7] == w[7]);
    }
    assert(spec_jskip(s, i + 7) == i + 7);
    assert(s.subrange(i + 7, i + 8) =~= ":"@) by {
        assert(s[i + 7] == w[7]);
    }
    assert(spec_expect(s, i + 7, ":"@) == Some(i + 8));
    assert(s[i + 8] == '"') by {
        assert(s[i + 8] == w[8]);
    }
    assert(spec_jskip(s, i + 8) == i + 8);
    assert(spec_member_start(s, i + 1, "\"path\""@) == Some(i + 8));
    // The path string itself.
    assert(s.subrange(p1, p2) =~= r.path) by {
        assert forall|t: int| 0 <= t < lp implies s.subrange(p1, p2)[t] == r.path[t] by {
            assert(s[p1 + t] == w[9 + t]);
        }
    }
    assert(s[p2] == '"') by {
        assert(s[i + (9 + lp)] == w[9 + lp]);
    }
    lemma_parse_jstring_render(s, i + 8, r.path);
    assert(spec_parse_jstring(s, i + 8) == Some((r.path, p2 + 1)));
    // The separator and the offset member.
    assert(s[p2 + 1] == ',') by {
        assert(s[i + (9 + lp + 1)] == w[9 + lp + 1]);
    }
    assert(spec_jskip(s, p2 + 1) == p2 + 1);
    assert(s.subrange(p2 + 1, p2 + 2) =~= ","@) by {
        assert(s[p2 + 1] == w[9 + lp + 1]);
    }
    assert(spec_expect(s, p2 + 1, ","@) == Some(p2 + 2));
    assert(s.subrange(p2 + 2, p2 + 10) =~= "\"offset\""@) by {
        assert forall|t: int| 0 <= t < 8 implies s.subrange(p2 + 2, p2 + 10)[t] == "\"offset\""@[t]
            by {
            assert(s[i + (9 + lp + 2 + t)] == w[9 + lp + 2 + t]);
        }
    }
    assert(s[p2 + 2] == '"') by {
        assert(s[i + (9 + lp + 2)] == w[9 + lp + 2]);
    }
    assert(spec_jskip(s, p2 + 2) == p2 + 2);
    assert(spec_expect(s, p2 + 2, "\"offset\""@) == Some(p2 + 10));
    assert(s[p2 + 10] == ':') by {
        assert(s[i + (9 + lp + 10)] == w[9 + lp + 10]);
    }
    assert(spec_jskip(s, p2 + 10) == p2 + 10);
    assert(s.subrange(p2 + 10, p3) =~= ":"@) by {
        assert(s[p2 + 10] == w[9 + lp + 10]);
    }
    assert(spec_expect(s, p2 + 10, ":"@) == Some(p3));
    assert(s[p3] == n1[0]) by {
        assert(s[i + (9 + lp + 11)] == w[9 + lp + 11]);
    }
    assert(is_digit(s[p3]));
    assert(!is_j_ws(s[p3]));
    assert(spec_jskip(s, p3) == p3);
    assert(spec_member_start(s, p2 + 2, "\"offset\""@) == Some(p3));
    // The offset digits.
    assert(s.subrange(p3, p4) =~= n1) by {
        assert forall|t: int| 0 <= t < l1 implies s.subrange(p3, p4)[t] == n1[t] by {
            assert(s[i + (9 + lp + 11 + t)] == w[9 + lp + 11 + t]);
        }
    }
    assert(s[p4] == ',') by {
        assert(s[i + (9 + lp + 11 + l1)] == w[9 + lp + 11 + l1]);
    }
    lemma_parse_num_render(s, p3, p4, r.offset, u64::MAX as int);
    assert(spec_parse_num(s, p3, u64::MAX as int) == Some((r.offset, p4)));
    // The separator and the size member.
    assert(spec_jskip(s, p4) == p4);
    assert(s.subrange(p4, p4 + 1) =~= ","@) by {
        assert(s[p4] == w[9 + lp + 11 + l1]);
    }
    assert(spec_expect(s, p4, ","@) == Some(p4 + 1));
    assert(s.subrange(p4 + 1, p4 + 7) =~= "\"size\""@) by {
        assert forall|t: int| 0 <= t < 6 implies s.subrange(p4 + 1, p4 + 7)[t] == "\"size\""@[t]
            by {
            assert(s[i + (9 + lp + 11 + l1 + 1 + t)] == w[9 + lp + 11 + l1 + 1 + t]);
        }
    }
    assert(s[p4 + 1] == '"') by {
        assert(s[i + (9 + lp + 11 + l1 + 1)] == w[9 + lp + 11 + l1 + 1]);
    }
    assert(spec_jskip(s, p4 + 1) == p4 + 1);
    assert(spec_expect(s, p4 + 1, "\"size\""@) == Some(p4 + 7));
    assert(s[p4 + 7] == ':') by {
        assert(s[i + (9 + lp + 11 + l1 + 7)] == w[9 + lp + 11 + l1 + 7]);
    }
    assert(spec_jskip(s, p4 + 7) == p4 + 7);
    assert(s.subrange(p4 + 7, p5) =~= ":"@) by {
        assert(s[p4 + 7] == w[9 + lp + 11 + l1 + 7]);
    }
    assert(spec_expect(s, p4 + 7, ":"@) == Some(p5));
    assert(s[p5] == n2[0]) by {
        assert(s[i + (9 + lp + 11 + l1 + 8)] == w[9 + lp + 11 + l1 + 8]);
    }
    assert(is_digit(s[p5]));
    assert(!is_j_ws(s[p5]));
    assert(spec_jskip(s, p5) == p5);
    assert(spec_member_start(s, p4 + 1, "\"size\""@) == Some(p5));
    // The size digits and the closing brace.
    assert(s.subrange(p5, p6) =~= n2) by {
        assert forall|t: int| 0 <= t < l2 implies s.subrange(p5, p6)[t] == n2[t] by {
            assert(s[i + (9 + lp + 11 + l1 + 8 + t)] == w[9 + lp + 11 + l1 + 8 + t]);
        }
    }
    assert(s[p6] == '}') by {
        assert(s[i + (9 + lp + 11 + l1 + 8 + l2)] == w[9 + lp + 11 + l1 + 8 + l2]);
    }
    lemma_parse_num_render(s, p5, p6, r.size, usize::MAX as int);
    assert(spec_parse_num(s, p5, usize::MAX as int) == Some((r.size, p6)));
    assert(spec_jskip(s, p6) == p6);
    assert(s.subrange(p6, p6 + 1) =~= "}"@) by {
        assert(s[p6] == w[9 + lp + 11 + l1 + 8 + l2]);
    }
    assert(spec_expect(s, p6, "}"@) == Some(p6 + 1));
    assert(r == (Region { path: r.path, offset: r.offset, size: r.size }));
}

/// Parsing a canonically rendered two-bank destination yields both
/// regions back and stops right after it.
proof fn lemma_parse_banks_render(s: Seq<char>, i: int, ba: Region, bb: Region)
    requires
        0 <= i,
        ({
            let wb = "{\"bank_a\":"@ + spec_render_region(ba) + ",\"bank_b\":"@
                + spec_render_region(bb) + "}"@;
            &&& i + wb.len() <= s.len()
            &&& s.subrange(i, i + wb.len()) == wb
        }),
        json_safe(ba.path),
        json_safe(bb.path),
        0 <= ba.offset <= u64::MAX as int,
        0 <= ba.size <= usize::MAX as int,
        0 <= bb.offset <= u64::MAX as int,
        0 <= bb.size <= usize::MAX as int,
    ensures
        ({
            let wb = "{\"bank_a\":"@ + spec_render_region(ba) + ",\"bank_b\":"@
                + spec_render_region(bb) + "}"@;
            spec_parse_banks(s, i) == Some(((ba, bb), i + wb.len()))
        }),
{
    reveal_strlit("{\"bank_a\":");
    reveal_strlit(",\"bank_b\":");
    reveal_strlit("{\"bank_a\"");
    reveal_strlit("\"bank_a\"");
    reveal_strlit("\"bank_b\"");
    reveal_strlit("{");
    reveal_strlit("}");
    reveal_strlit(":");
    reveal_strlit(",");
    reveal_strlit("{\"path\":\"");
    let ra = spec_render_region(ba);
    let rb = spec_render_region(bb);
    let wb = "{\"bank_a\":"@ + ra + ",\"bank_b\":"@ + rb + "}"@;
    let la = ra.len() as int;
    let lb = rb.len() as int;
    assert(("{\"bank_a\":"@).len() == 10);
    assert((",\"bank_b\":"@).len() == 10);
    assert(wb.len() == 10 + la + 10 + lb + 1);
    assert forall|t: int| 0 <= t < wb.len() implies s[i + t] == wb[t] by {
        assert(s.subrange(i, i + wb.len())[t] == wb[t]);
    }
    let q1 = i + 10;
    let q2 = q1 + la;
    let q3 = q2 + 10;
    let q4 = q3 + lb;
    assert(ra[0] == '{') by {
        assert(ra == "{\"path\":\""@ + ba.path + "\",\"offset\":"@ + spec_render_num(ba.offset)
            + ",\"size\":"@ + spec_render_num(ba.size) + "}"@);
    }
    assert(rb[0] == '{') by {
        assert(rb == "{\"path\":\""@ + bb.path + "\",\"offset\":"@ + spec_render_num(bb.offset)
            + ",\"size\":"@ + spec_render_num(bb.size) + "}"@);
    }
    // The opening brace and the bank_a member.
    assert(s.subrange(i, i + 1) =~= "{"@) by {
        assert(s[i] == wb[0]);
    }
    assert(spec_expect(s, i, "{"@) == Some(i + 1));
    assert(s[i + 1] == '"') by {
        assert(s[i + 1] == wb[1]);
    }
    assert(spec_jskip(s, i + 1) == i + 1);
    assert(s.subrange(i + 1, i + 9) =~= "\"bank_a\""@) by {
        assert forall|t: int| 0 <= t < 8 implies s.subrange(i + 1, i + 9)[t] == "\"bank_a\""@[t]
            by {
            assert(s[i + 1 + t] == wb[1 + t]);
        }
    }
    assert(spec_expect(s, i + 1, "\"bank_a\""@) == Some(i + 9));
    assert(s[i + 9] == ':') by {
        assert(s[i + 9] == wb[9]);
    }
    assert(spec_jskip(s, i + 9) == i + 9);
    assert(s.subrange(i + 9, i + 10) =~= ":"@) by {
        assert(s[i + 9] == wb[9]);
    }
    assert(spec_expect(s, i + 9, ":"@) == Some(q1));
    assert(s[q1] == '{') by {
        assert(s[i + 10] == wb[10]);
    }
    assert(!is_j_ws('{'));
    assert(spec_jskip(s, q1) == q1);
    assert(spec_member_start(s, i + 1, "\"bank_a\""@) == Some(q1));
    // The bank_a region.
    assert(s.subrange(q1, q2) =~= ra) by {
        assert forall|t: int| 0 <= t < la implies s.subrange(q1, q2)[t] == ra[t] by {
            assert(s[i + (10 + t)] == wb[10 + t]);
        }
    }
    lemma_parse_region_render(s, q1, ba);
    assert(spec_parse_region(s, q1) == Some((ba, q2)));
    // The separator and the bank_b member.
    assert(s[q2] == ',') by {
        assert(s[i + (10 + la)] == wb[10 + la]);
    }
    assert(spec_jskip(s, q2) == q2);
    assert(s.subrange(q2, q2 + 1) =~= ","@) by {
        assert(s[q2] == wb[10 + la]);
    }
    assert(spec_expect(s, q2, ","@) == Some(q2 + 1));
    assert(s[q2 + 1] == '"') by {
        assert(s[i + (10 + la + 1)] == wb[10 + la + 1]);
    }
    assert(spec_jskip(s, q2 + 1) == q2 + 1);
    assert(s.subrange(q2 + 1, q2 + 9) =~= "\"bank_b\""@) by {
        assert forall|t: int| 0 <= t < 8 implies s.subrange(q2 + 1, q2 + 9)[t] == "\"bank_b\""@[t]
            by {
            assert(s[i + (10 + la + 1 + t)] == wb[10 + la + 1 + t]);
        }
    }
    assert(spec_expect(s, q2 + 1, "\"bank_b\""@) == Some(q2 + 9));
    assert(s[q2 + 9] == ':') by {
        assert(s[i + (10 + la + 9)] == wb[10 + la + 9]);
    }
    assert(spec_jskip(s, q2 + 9) == q2 + 9);
    assert(s.subrange(q2 + 9, q3) =~= ":"@) by {
        assert(s[q2 + 9] == wb[10 + la + 9]);
    }
    assert(spec_expect(s, q2 + 9, ":"@) == Some(q3));
    assert(s[q3] == '{') by {
        assert(s[i + (10 + la + 10)] == wb[10 + la + 10]);
    }
    assert(spec_jskip(s, q3) == q3);
    assert(spec_member_start(s, q2 + 1, "\"bank_b\""@) == Some(q3));
    // The bank_b region and the closing brace.
    assert(s.subrange(q3, q4) =~= rb) by {
        assert forall|t: int| 0 <= t < lb implies s.subrange(q3, q4)[t] == rb[t] by {
            assert(s[i + (10 + la + 10 + t)] == wb[10 + la + 10 + t]);
        }
    }
    lemma_parse_region_render(s, q3, bb);
    assert(spec_parse_region(s, q3) == Some((bb, q4)));
    assert(s[q4] == '}') by {
        assert(s[i + (10 + la + 10 + lb)] == wb[10 + la + 10 + lb]);
    }
    assert(spec_jskip(s, q4) == q4);
    assert(s.subrange(q4, q4 + 1) =~= "}"@) by {
        assert(s[q4] == wb[10 + la + 10 + lb]);
    }
    assert(spec_expect(s, q4, "}"@) == Some(q4 + 1));
}

/// Parsing a canonically rendered block yields it back and stops right
/// after it.
#[verifier::rlimit(60)]
proof fn lemma_parse_block_render(s: Seq<char>, i: int, b: BlockCfg)
    requires
        0 <= i,
        i + spec_render_block(b).len() <= s.len(),
        s.subrange(i, i + spec_render_block(b).len()) == spec_render_block(b),
        json_safe(b.name),
        json_safe(b.id),
        json_safe(b.bank_a.path),
        json_safe(b.bank_b.path),
        0 <= b.bank_a.offset <= u64::MAX as int,
        0 <= b.bank_a.size <= usize::MAX as int,
        0 <= b.bank_b.offset <= u64::MAX as int,
        0 <= b.bank_b.size <= usize::MAX as int,
    ensures
        spec_parse_block(s, i) == Some((b, i + spec_render_block(b).len())),
{
    reveal_strlit("{\"name\":\"");
    reveal_strlit("\",\"id\":\"");
    reveal_strlit("\",\"destination\":{\"bank_a\":");
    reveal_strlit(",\"bank_b\":");
    reveal_strlit("}}");
    reveal_strlit("{\"bank_a\":");
    reveal_strlit("{");
    reveal_strlit("}");
    reveal_strlit(":");
    reveal_strlit(",");
    reveal_strlit("\"name\"");
    reveal_strlit("\"id\"");
    reveal_strlit("\"destination\"");
    let ra = spec_render_region(b.bank_a);
    let rb = spec_render_region(b.bank_b);
    let w = spec_render_block(b);
    let ln = b.name.len() as int;
    let lid = b.id.len() as int;
    let la = ra.len() as int;
    let lb = rb.len() as int;
    assert(("{\"name\":\""@).len() == 9);
    assert(("\",\"id\":\""@).len() == 8);
    assert(("\",\"destination\":{\"bank_a\":"@).len() == 26);
    assert((",\"bank_b\":"@).len() == 10);
    assert(("}}"@).len() == 2);
    assert(w.len() == 9 + ln + 8 + lid + 26 + la + 10 + lb + 2);
    assert forall|t: int| 0 <= t < w.len() implies s[i + t] == w[t] by {
        assert(s.subrange(i, i + w.len())[t] == w[t]);
    }
    let p2 = i + 9 + ln;
    let p3 = p2 + 8 + lid;
    let h = p3 + 16;
    let wb = "{\"bank_a\":"@ + ra + ",\"bank_b\":"@ + rb + "}"@;
    let q = h + 10 + la + 10 + lb + 1;
    // The opening brace and the name member.
    assert(s.subrange(i, i + 1) =~= "{"@) by {
        assert(s[i] == w[0]);
    }
    assert(spec_expect(s, i, "{"@) == Some(i + 1));
    assert(s[i + 1] == '"') by {
        assert(s[i + 1] == w[1]);
    }
    assert(spec_jskip(s, i + 1) == i + 1);
    assert(s.subrange(i + 1, i + 7) =~= "\"name\""@) by {
        assert forall|t: int| 0 <= t < 6 implies s.subrange(i + 1, i + 7)[t] == "\"name\""@[t] by {
            assert(s[i + 1 + t] == w[1 + t]);
        }
    }
    assert(spec_expect(s, i + 1, "\"name\""@) == Some(i + 7));
    assert(s[i + 7] == ':') by {
        assert(s[i + 7] == w[7]);
    }
    assert(spec_jskip(s, i + 7) == i + 7);
    assert(s.subrange(i + 7, i + 8) =~= ":"@) by {
        assert(s[i + 7] == w[7]);
    }
    assert(spec_expect(s, i + 7, ":"@) == Some(i + 8));
    assert(s[i + 8] == '"') by {
        assert(s[i + 8] == w[8]);
    }
    assert(spec_jskip(s, i + 8) == i + 8);
    assert(spec_member_start(s, i + 1, "\"name\""@) == Some(i + 8));
    // The name string.
    assert(s.subrange(i + 9, p2) =~= b.name) by {
        assert forall|t: int| 0 <= t < ln implies s.subrange(i + 9, p2)[t] == b.name[t] by {
            assert(s[i + (9 + t)] == w[9 + t]);
        }
    }
    assert(s[p2] == '"') by {
        assert(s[i + (9 + ln)] == w[9 + ln]);
    }
    lemma_parse_jstring_render(s, i + 8, b.name);
    assert(spec_parse_jstring(s, i + 8) == Some((b.name, p2 + 1)));
    // The separator and the id member.
    assert(s[p2 + 1] == ',') by {
        assert(s[i + (9 + ln + 1)] == w[9 + ln + 1]);
    }
    assert(spec_jskip(s, p2 + 1) == p2 + 1);
    assert(s.subrange(p2 + 1, p2 + 2) =~= ","@) by {
        assert(s[p2 + 1] == w[9 + ln + 1]);
    }
    assert(spec_expect(s, p2 + 1, ","@) == Some(p2 + 2));
    assert(s[p2 + 2] == '"') by {
        assert(s[i + (9 + ln + 2)] == w[9 + ln + 2]);
    }
    assert(spec_jskip(s, p2 + 2) == p2 + 2);
    assert(s.subrange(p2 + 2, p2 + 6) =~= "\"id\""@) by {
        assert forall|t: int| 0 <= t < 4 implies s.subrange(p2 + 2, p2 + 6)[t] == "\"id\""@[t] by {
            assert(s[i + (9 + ln + 2 + t)] == w[9 + ln + 2 + t]);
        }
    }
    assert(spec_expect(s, p2 + 2, "\"id\""@) == Some(p2 + 6));
    assert(s[p2 + 6] == ':') by {
        assert(s[i + (9 + ln + 6)] == w[9 + ln + 6]);
    }
    assert(spec_jskip(s, p2 + 6) == p2 + 6);
    assert(s.subrange(p2 + 6, p2 + 7) =~= ":"@) by {
        assert(s[p2 + 6] == w[9 + ln + 6]);
    }
    assert(spec_expect(s, p2 + 6, ":"@) == Some(p2 + 7));
    assert(s[p2 + 7] == '"') by {
        assert(s[i + (9 + ln + 7)] == w[9 + ln + 7]);
    }
    assert(spec_jskip(s, p2 + 7) == p2 + 7);
    assert(spec_member_start(s, p2 + 2, "\"id\""@) == Some(p2 + 7));
    // The id string.
    assert(s.subrange(p2 + 8, p3) =~= b.id) by {
        assert forall|t: int| 0 <= t < lid implies s.subrange(p2 + 8, p3)[t] == b.id[t] by {
            assert(s[i + (9 + ln + 8 + t)] == w[9 + ln + 8 + t]);
        }
    }
    assert(s[p3] == '"') by {
        assert(s[i + (9 + ln + 8 + lid)] == w[9 + ln + 8 + lid]);
    }
    lemma_parse_jstring_render(s, p2 + 7, b.id);
    assert(spec_parse_jstring(s, p2 + 7) == Some((b.id, p3 + 1)));
    // The separator and the destination member.
    assert(s[p3 + 1] == ',') by {
        assert(s[i + (9 + ln + 8 + lid + 1)] == w[9 + ln + 8 + lid + 1]);
    }
    assert(spec_jskip(s, p3 + 1) == p3 + 1);
    assert(s.subrange(p3 + 1, p3 + 2) =~= ","@) by {
        assert(s[p3 + 1] == w[9 + ln + 8 + lid + 1]);
    }
    assert(spec_expect(s, p3 + 1, ","@) == Some(p3 + 2));
    assert(s[p3 + 2] == '"') by {
        assert(s[i + (9 + ln + 8 + lid + 2)] == w[9 + ln + 8 + lid + 2]);
    }
    assert(spec_jskip(s, p3 + 2) == p3 + 2);
    assert(s.subrange(p3 + 2, p3 + 15) =~= "\"destination\""@) by {
        assert forall|t: int|
            0 <= t < 13 implies s.subrange(p3 + 2, p3 + 15)[t] == "\"destination\""@[t] by {
            assert(s[i + (9 + ln + 8 + lid + 2 + t)] == w[9 + ln + 8 + lid + 2 + t]);
        }
    }
    assert(spec_expect(s, p3 + 2, "\"destination\""@) == Some(p3 + 15));
    assert(s[p3 + 15] == ':') by {
        assert(s[i + (9 + ln + 8 + lid + 15)] == w[9 + ln + 8 + lid + 15]);
    }
    assert(spec_jskip(s, p3 + 15) == p3 + 15);
    assert(s.subrange(p3 + 15, p3 + 16) =~= ":"@) by {
        assert(s[p3 + 15] == w[9 + ln + 8 + lid + 15]);
    }
    assert(spec_expect(s, p3 + 15, ":"@) == Some(h));
    assert(s[h] == '{') by {
        assert(s[i + (9 + ln + 8 + lid + 16)] == w[9 + ln + 8 + lid + 16]);
    }
    assert(spec_jskip(s, h) == h);
    assert(spec_member_start(s, p3 + 2, "\"destination\""@) == Some(h));
    // The banks window.
    assert(wb.len() == 10 + la + 10 + lb + 1);
    assert(s.subrange(h, h + wb.len()) =~= wb) by {
        assert forall|t: int| 0 <= t < wb.len() implies s.subrange(h, h + wb.len())[t] == wb[t]
            by {
            assert(s[i + (9 + ln + 8 + lid + 16 + t)] == w[9 + ln + 8 + lid + 16 + t]);
            if t < 10 {
                assert(w[9 + ln + 8 + lid + 16 + t]
                    == "\",\"destination\":{\"bank_a\":"@[16 + t]);
                assert(wb[t] == "{\"bank_a\":"@[t]);
            }
        }
    }
    lemma_parse_banks_render(s, h, b.bank_a, b.bank_b);
    assert(spec_parse_banks(s, h) == Some(((b.bank_a, b.bank_b), q)));
    // The closing braces.
    assert(s[q] == '}') by {
        assert(s[i + (9 + ln + 8 + lid + 26 + la + 10 + lb + 1)] == w[9 + ln + 8 + lid + 26 + la
            + 10 + lb + 1]);
    }
    assert(spec_jskip(s, q) == q);
    assert(s.subrange(q, q + 1) =~= "}"@) by {
        assert(s[q] == w[9 + ln + 8 + lid + 26 + la + 10 + lb + 1]);
    }
    assert(spec_expect(s, q, "}"@) == Some(q + 1));
    assert(b == (BlockCfg { name: b.name, id: b.id, bank_a: b.bank_a, bank_b: b.bank_b }));
}

/// The text that follows the first block of the array: a comma and a
/// block for each later block, then the closing bracket.
spec fn spec_render_tail(blocks: Seq<BlockCfg>) -> Seq<char>
    decreases blocks.len(),
{
    if blocks.len() == 0 {
        "]"@
    } else {
        ","@ + spec_render_block(blocks[0]) + spec_render_tail(blocks.drop_first())
    }
}

/// The rendered array body splits into its first block and the tail text.
proof fn lemma_blocks_text(blocks: Seq<BlockCfg>)
    requires
        blocks.len() > 0,
    ensures
        spec_render_blocks(blocks) + "]"@ == spec_render_block(blocks[0]) + spec_render_tail(
            blocks.drop_first(),
        ),
    decreases blocks.len(),
{
    if blocks.len() == 1 {
        assert(spec_render_tail(blocks.drop_first()) == "]"@);
    } else {
        let rest = blocks.drop_first();
        lemma_blocks_text(rest);
        assert(rest[0] == blocks[1]);
        assert(spec_render_blocks(blocks) + "]"@ =~= spec_render_block(blocks[0]) + (","@
            + (spec_render_blocks(rest) + "]"@)));
        assert(spec_render_tail(rest) =~= ","@ + (spec_render_blocks(rest) + "]"@)) by {
            assert(spec_render_tail(rest) == ","@ + spec_render_block(rest[0])
                + spec_render_tail(rest.drop_first()));
            assert(spec_render_block(rest[0]) + spec_render_tail(rest.drop_first())
                == spec_render_blocks(rest) + "]"@);
        }
    }
}

/// A block the renderer can write down faithfully.
spec fn block_renderable(b: BlockCfg) -> bool {
    &&& json_safe(b.name)
    &&& json_safe(b.id)
    &&& json_safe(b.bank_a.path)
    &&& json_safe(b.bank_b.path)
    &&& 0 <= b.bank_a.offset <= u64::MAX as int
    &&& 0 <= b.bank_a.size <= usize::MAX as int
    &&& 0 <= b.bank_b.offset <= u64::MAX as int
    &&& 0 <= b.bank_b.size <= usize::MAX as int
}

/// Parsing the rendered tail of the array yields the remaining blocks.
proof fn lemma_parse_more_render(s: Seq<char>, i: int, blocks: Seq<BlockCfg>)
    requires
        0 <= i,
        i + spec_render_tail(blocks).len() <= s.len(),
        s.subrange(i, i + spec_render_tail(blocks).len()) == spec_render_tail(blocks),
        forall|t: int| 0 <= t < blocks.len() ==> block_renderable(#[trigger] blocks[t]),
    ensures
        spec_parse_more_blocks(s, i) == Some((blocks, i + spec_render_tail(blocks).len())),
    decreases blocks.len(),
{
    reveal_strlit("]");
    reveal_strlit(",");
    reveal_strlit("{\"name\":\"");
    let tail = spec_render_tail(blocks);
    assert forall|t: int| 0 <= t < tail.len() implies s[i + t] == tail[t] by {
        assert(s.subrange(i, i + tail.len())[t] == tail[t]);
    }
    if blocks.len() == 0 {
        assert(s[i] == ']') by {
            assert(s[i] == tail[0]);
        }
        assert(spec_jskip(s, i) == i);
        assert(spec_parse_more_blocks(s, i) == Some((Seq::<BlockCfg>::empty(), i + 1)));
        assert(Seq::<BlockCfg>::empty() =~= blocks);
    } else {
        let b0 = blocks[0];
        let rb0 = spec_render_block(b0);
        let lb0 = rb0.len() as int;
        let rest = blocks.drop_first();
        assert(s[i] == ',') by {
            assert(s[i] == tail[0]);
        }
        assert(spec_jskip(s, i) == i);
        assert(rb0[0] == '{') by {
            assert(rb0 == "{\"name\":\""@ + b0.name + "\",\"id\":\""@ + b0.id
                + "\",\"destination\":{\"bank_a\":"@ + spec_render_region(b0.bank_a)
                + ",\"bank_b\":"@ + spec_render_region(b0.bank_b) + "}}"@);
        }
        assert(s[i + 1] == '{') by {
            assert(s[i + 1] == tail[1]);
        }
        assert(spec_jskip(s, i + 1) == i + 1);
        assert(s.subrange(i + 1, i + 1 + lb0) =~= rb0) by {
            assert forall|t: int| 0 <= t < lb0 implies s.subrange(i + 1, i + 1 + lb0)[t] == rb0[t]
                by {
                assert(s[i + (1 + t)] == tail[1 + t]);
            }
        }
        assert(block_renderable(b0));
        lemma_parse_block_render(s, i + 1, b0);
        let a = i + 1 + lb0;
        assert(spec_parse_block(s, i + 1) == Some((b0, a)));
        assert(s.subrange(a, a + spec_render_tail(rest).len()) =~= spec_render_tail(rest)) by {
            assert forall|t: int|
                0 <= t < spec_render_tail(rest).len() implies s.subrange(
                a,
                a + spec_render_tail(rest).len(),
            )[t] == spec_render_tail(rest)[t] by {
                assert(s[i + (1 + lb0 + t)] == tail[1 + lb0 + t]);
            }
        }
        assert forall|t: int| 0 <= t < rest.len() implies block_renderable(#[trigger] rest[t])
            by {
            assert(rest[t] == blocks[t + 1]);
        }
        lemma_parse_more_render(s, a, rest);
        assert(seq![b0] + rest =~= blocks);
    }
}

/// Parsing a rendered block array yields the blocks back.
#[verifier::rlimit(100)]
proof fn lemma_parse_blocks_render(s: Seq<char>, i: int, blocks: Seq<BlockCfg>)
    requires
        0 <= i,
        ({
            let wa = "["@ + spec_render_blocks(blocks) + "]"@;
            &&& i + wa.len() <= s.len()
            &&& s.subrange(i, i + wa.len()) == wa
        }),
        forall|t: int| 0 <= t < blocks.len() ==> block_renderable(#[trigger] blocks[t]),
    ensures
        spec_parse_blocks(s, i) == Some(
            (blocks, i + 2 + spec_render_blocks(blocks).len() as int),
        ),
{
    reveal_strlit("[");
    reveal_strlit("]");
    reveal_strlit("{\"name\":\"");
    let body = spec_render_blocks(blocks);
    let lb = body.len() as int;
    let wa = "["@ + body + "]"@;
    assert(wa.len() == lb + 2);
    assert forall|t: int| 0 <= t < wa.len() implies s[i + t] == wa[t] by {
        assert(s.subrange(i, i + wa.len())[t] == wa[t]);
    }
    assert(s.subrange(i, i + 1) =~= "["@) by {
        assert(s[i] == wa[0]);
    }
    assert(spec_expect(s, i, "["@) == Some(i + 1));
    if blocks.len() == 0 {
        assert(body.len() == 0);
        assert(s[i + 1] == ']') by {
            assert(s[i + 1] == wa[1]);
        }
        assert(spec_jskip(s, i + 1) == i + 1);
        assert(spec_parse_blocks(s, i) == Some((Seq::<BlockCfg>::empty(), i + 2)));
        assert(Seq::<BlockCfg>::empty() =~= blocks);
    } else {
        let b0 = blocks[0];
        let rb0 = spec_render_block(b0);
        let lb0 = rb0.len() as int;
        let rest = blocks.drop_first();
        lemma_blocks_text(blocks);
        assert(body + "]"@ == rb0 + spec_render_tail(rest));
        assert(rb0[0] == '{') by {
            assert(rb0 == "{\"name\":\""@ + b0.name + "\",\"id\":\""@ + b0.id
                + "\",\"destination\":{\"bank_a\":"@ + spec_render_region(b0.bank_a)
                + ",\"bank_b\":"@ + spec_render_region(b0.bank_b) + "}}"@);
        }
        assert forall|t: int| 0 <= t < lb + 1 implies s[i + 1 + t] == (body + "]"@)[t] by {
            if t < lb {
                assert(s[i + (1 + t)] == wa[1 + t]);
            } else {
                assert(s[i + (1 + lb)] == wa[1 + lb]);
            }
        }
        assert(s[i + 1] == '{') by {
            assert((body + "]"@)[0] == rb0[0]);
        }
        assert(spec_jskip(s, i + 1) == i + 1);
        assert(s.subrange(i + 1, i + 1 + lb0) =~= rb0) by {
            assert forall|t: int| 0 <= t < lb0 implies s.subrange(i + 1, i + 1 + lb0)[t] == rb0[t]
                by {
                assert(s[i + 1 + t] == (body + "]"@)[t]);
                assert((body + "]"@)[t] == (rb0 + spec_render_tail(rest))[t]);
            }
        }
        assert(block_renderable(b0));
        lemma_parse_block_render(s, i + 1, b0);
        let a = i + 1 + lb0;
        assert(spec_parse_block(s, i + 1) == Some((b0, a)));
        let lt = spec_render_tail(rest).len() as int;
        assert(lb0 + lt == lb + 1);
        assert(s.subrange(a, a + lt) =~= spec_render_tail(rest)) by {
            assert forall|t: int| 0 <= t < lt implies s.subrange(a, a + lt)[t]
                == spec_render_tail(rest)[t] by {
                assert(s[i + 1 + (lb0 + t)] == (body + "]"@)[lb0 + t]);
                assert((body + "]"@)[lb0 + t] == (rb0 + spec_render_tail(rest))[lb0 + t]);
            }
        }
        assert forall|t: int| 0 <= t < rest.len() implies block_renderable(#[trigger] rest[t])
            by {
            assert(rest[t] == blocks[t + 1]);
        }
        lemma_parse_more_render(s, a, rest);
        assert(spec_parse_more_blocks(s, a) == Some((rest, a + lt)));
        assert(seq![b0] + rest =~= blocks);
        assert(a + lt == i + 2 + lb);
    }
}

/// The header of the rendered document: the brace, the one member key
/// and its colon, with the array right after.
#[verifier::rlimit(60)]
proof fn lemma_cfg_header(blocks: Seq<BlockCfg>)
    ensures
        ({
            let s = spec_render_cfg(blocks);
            &&& s.len() == 21 + spec_render_blocks(blocks).len()
            &&& spec_jskip(s, 0) == 0
            &&& spec_expect(s, 0, "{"@) == Some(1int)
            &&& spec_member_start(s, 1, "\"logical_blocks\""@) == Some(18int)
        }),
{
    reveal_strlit("{\"logical_blocks\":[");
    reveal_strlit("]}");
    reveal_strlit("{");
    reveal_strlit(":");
    reveal_strlit("\"logical_blocks\"");
    let body = spec_render_blocks(blocks);
    let lb = body.len() as int;
    let s = spec_render_cfg(blocks);
    assert(("{\"logical_blocks\":["@).len() == 19);
    assert(("]}"@).len() == 2);
    assert(s.len() == 19 + lb + 2);
    assert(s[0] == '{') by {
        assert(s[0] == ("{\"logical_blocks\":["@)[0]);
    }
    assert(spec_jskip(s, 0) == 0);
    assert(s.subrange(0, 1) =~= "{"@) by {
        assert(s[0] == ("{\"logical_blocks\":["@)[0]);
    }
    assert(spec_expect(s, 0, "{"@) == Some(1int));
    assert(s[1] == '"') by {
        assert(s[1] == ("{\"logical_blocks\":["@)[1]);
    }
    assert(spec_jskip(s, 1) == 1);
    assert(s.subrange(1, 17) =~= "\"logical_blocks\""@) by {
        assert forall|t: int|
            0 <= t < 16 implies s.subrange(1, 17)[t] == "\"logical_blocks\""@[t] by {
            assert(s[1 + t] == ("{\"logical_blocks\":["@)[1 + t]);
        }
    }
    assert(spec_expect(s, 1, "\"logical_blocks\""@) == Some(17int));
    assert(s[17] == ':') by {
        assert(s[17] == ("{\"logical_blocks\":["@)[17]);
    }
    assert(spec_jskip(s, 17) == 17);
    assert(s.subrange(17, 18) =~= ":"@) by {
        assert(s[17] == ("{\"logical_blocks\":["@)[17]);
    }
    assert(spec_expect(s, 17, ":"@) == Some(18int));
    assert(s[18] == '[') by {
        assert(s[18] == ("{\"logical_blocks\":["@)[18]);
    }
    assert(spec_jskip(s, 18) == 18);
    assert(spec_member_start(s, 1, "\"logical_blocks\""@) == Some(18int));
}

/// The array window and the trailer of the rendered document.
#[verifier::rlimit(60)]
proof fn lemma_cfg_window(blocks: Seq<BlockCfg>)
    ensures
        ({
            let s = spec_render_cfg(blocks);
            let lb = spec_render_blocks(blocks).len() as int;
            &&& s.subrange(18, 18 + lb + 2) == "["@ + spec_render_blocks(blocks) + "]"@
            &&& s[20 + lb] == '}'
        }),
{
    reveal_strlit("{\"logical_blocks\":[");
    reveal_strlit("]}");
    reveal_strlit("[");
    reveal_strlit("]");
    let body = spec_render_blocks(blocks);
    let lb = body.len() as int;
    let s = spec_render_cfg(blocks);
    assert(("{\"logical_blocks\":["@).len() == 19);
    assert(("]}"@).len() == 2);
    let wa = "["@ + body + "]"@;
    assert(s.subrange(18, 18 + lb + 2) =~= wa) by {
        assert forall|t: int| 0 <= t < lb + 2 implies s.subrange(18, 18 + lb + 2)[t] == wa[t] by {
            if t == 0 {
                assert(s[18] == ("{\"logical_blocks\":["@)[18]);
            } else if t < lb + 1 {
                assert(s[18 + t] == body[t - 1]);
            } else {
                assert(s[19 + lb] == ("]}"@)[0]);
            }
        }
    }
    assert(s[20 + lb] == '}') by {
        assert(s[19 + lb + 1] == ("]}"@)[1]);
    }
}

/// Parsing the canonical rendering of a configuration yields the
/// configuration back: serialize-then-parse is the identity on
/// configurations the document syntax can carry.
#[verifier::rlimit(60)]
pub proof fn lemma_parse_render_cfg(blocks: Seq<BlockCfg>)
    requires
        cfg_renderable(blocks),
    ensures
        spec_parse_cfg(spec_render_cfg(blocks)) == Some(blocks),
{
    reveal_strlit("}");
    let body = spec_render_blocks(blocks);
    let lb = body.len() as int;
    let s = spec_render_cfg(blocks);
    lemma_cfg_header(blocks);
    lemma_cfg_window(blocks);
    assert forall|t: int| 0 <= t < blocks.len() implies block_renderable(#[trigger] blocks[t])
        by {}
    lemma_parse_blocks_render(s, 18, blocks);
    assert(spec_parse_blocks(s, 18) == Some((blocks, 20 + lb)));
    assert(spec_jskip(s, 20 + lb) == 20 + lb);
    assert(s.subrange(20 + lb, 21 + lb) =~= "}"@);
    assert(spec_expect(s, 20 + lb, "}"@) == Some(21 + lb));
    assert(spec_jskip(s, 21 + lb) == s.len());
}

/// Everything before the scan's stopping point is safe.
proof fn lemma_str_end_safe(s: Seq<char>, i: int)
    requires
        0 <= i,
    ensures
        i <= spec_str_end(s, i),
        forall|j: int| i <= j < spec_str_end(s, i) ==> s[j] != '"' && s[j] != '\\',
    decreases s.len() - i,
{
    if 0 <= i < s.len() && s[i] != '"' && s[i] != '\\' {
        lemma_str_end_safe(s, i + 1);
    }
}

/// A parsed string carries no quote and no backslash.
proof fn lemma_jstring_safe(s: Seq<char>, i: int)
    ensures
        spec_parse_jstring(s, i) matches Some(r) ==> json_safe(r.0),
{
    if 0 <= i < s.len() && s[i] == '"' {
        lemma_str_end_safe(s, i + 1);
        let e = spec_str_end(s, i + 1);
        if e < s.len() && s[e] == '"' {
            assert forall|t: int| 0 <= t < s.subrange(i + 1, e).len() implies #[trigger] s.subrange(
                i + 1,
                e,
            )[t] != '"' && s.subrange(i + 1, e)[t] != '\\' by {
                assert(s.subrange(i + 1, e)[t] == s[i + 1 + t]);
            }
        }
    }
}

/// The folded value never leaves the accumulator's range.
proof fn lemma_num_bounds(s: Seq<char>, i: int, acc: int, max: int)
    requires
        0 <= acc <= max,
    ensures
        spec_num_rec(s, i, acc, max) matches Some(r) ==> 0 <= r.0 <= max,
    decreases s.len() - i,
{
    if 0 <= i < s.len() && is_digit(s[i]) {
        if acc * 10 + digit_val(s[i]) <= max {
            lemma_num_bounds(s, i + 1, acc * 10 + digit_val(s[i]), max);
        }
    }
}

/// A parsed region's fields fit the document syntax.
proof fn lemma_region_fields(s: Seq<char>, i: int)
    ensures
        spec_parse_region(s, i) matches Some(r) ==> json_safe(r.0.path) && 0 <= r.0.offset
            <= u64::MAX as int && 0 <= r.0.size <= usize::MAX as int,
{
    if spec_parse_region(s, i) is Some {
        let a = spec_expect(s, i, "{"@).unwrap();
        let b = spec_member_start(s, a, "\"path\""@).unwrap();
        lemma_jstring_safe(s, b);
        let pc = spec_parse_jstring(s, b).unwrap();
        let d = spec_expect(s, spec_jskip(s, pc.1), ","@).unwrap();
        let e = spec_member_start(s, d, "\"offset\""@).unwrap();
        lemma_num_bounds(s, e, 0, u64::MAX as int);
        let of = spec_parse_num(s, e, u64::MAX as int).unwrap();
        let g = spec_expect(s, spec_jskip(s, of.1), ","@).unwrap();
        let h = spec_member_start(s, g, "\"size\""@).unwrap();
        lemma_num_bounds(s, h, 0, usize::MAX as int);
    }
}

/// A parsed block's fields fit the document syntax.
proof fn lemma_block_fields(s: Seq<char>, i: int)
    ensures
        spec_parse_block(s, i) matches Some(r) ==> block_renderable(r.0),
{
    if spec_parse_block(s, i) is Some {
        let a = spec_expect(s, i, "{"@).unwrap();
        let b = spec_member_start(s, a, "\"name\""@).unwrap();
        lemma_jstring_safe(s, b);
        let nm = spec_parse_jstring(s, b).unwrap();
        let d = spec_expect(s, spec_jskip(s, nm.1), ","@).unwrap();
        let e = spec_member_start(s, d, "\"id\""@).unwrap();
        lemma_jstring_safe(s, e);
        let idp = spec_parse_jstring(s, e).unwrap();
        let g = spec_expect(s, spec_jskip(s, idp.1), ","@).unwrap();
        let h = spec_member_start(s, g, "\"destination\""@).unwrap();
        if spec_parse_banks(s, h) is Some {
            let a2 = spec_expect(s, h, "{"@).unwrap();
            let b2 = spec_member_start(s, a2, "\"bank_a\""@).unwrap();
            lemma_region_fields(s, b2);
            let ra = spec_parse_region(s, b2).unwrap();
            let d2 = spec_expect(s, spec_jskip(s, ra.1), ","@).unwrap();
            let e2 = spec_member_start(s, d2, "\"bank_b\""@).unwrap();
            lemma_region_fields(s, e2);
        }
    }
}

/// Every block of a parsed tail fits the document syntax.
proof fn lemma_more_fields(s: Seq<char>, i: int)
    ensures
        spec_parse_more_blocks(s, i) matches Some(r) ==> forall|t: int|
            0 <= t < r.0.len() ==> block_renderable(#[trigger] r.0[t]),
    decreases s.len() - i,
{
    let j = spec_jskip(s, i);
    if 0 <= j < s.len() && s[j] == ']' {
    } else if 0 <= j < s.len() && s[j] == ',' {
        if spec_parse_block(s, spec_jskip(s, j + 1)) is Some {
            let bp = spec_parse_block(s, spec_jskip(s, j + 1)).unwrap();
            lemma_block_fields(s, spec_jskip(s, j + 1));
            if i < bp.1 <= s.len() {
                lemma_more_fields(s, bp.1);
                if spec_parse_more_blocks(s, bp.1) is Some {
                    let rest = spec_parse_more_blocks(s, bp.1).unwrap();
                    assert forall|t: int|
                        0 <= t < (seq![bp.0] + rest.0).len() implies block_renderable(
                        #[trigger] (seq![bp.0] + rest.0)[t],
                    ) by {
                        if t > 0 {
                            assert((seq![bp.0] + rest.0)[t] == rest.0[t - 1]);
                        }
                    }
                }
            }
        }
    }
}

/// Every block of a parsed array fits the document syntax.
proof fn lemma_blocks_fields(s: Seq<char>, i: int)
    ensures
        spec_parse_blocks(s, i) matches Some(r) ==> forall|t: int|
            0 <= t < r.0.len() ==> block_renderable(#[trigger] r.0[t]),
{
    if spec_parse_blocks(s, i) is Some {
        let a = spec_expect(s, i, "["@).unwrap();
        let j = spec_jskip(s, a);
        if 0 <= j < s.len() && s[j] == ']' {
        } else {
            lemma_block_fields(s, j);
            let bp = spec_parse_block(s, j).unwrap();
            lemma_more_fields(s, bp.1);
            let rest = spec_parse_more_blocks(s, bp.1).unwrap();
            assert forall|t: int|
                0 <= t < (seq![bp.0] + rest.0).len() implies block_renderable(
                #[trigger] (seq![bp.0] + rest.0)[t],
            ) by {
                if t > 0 {
                    assert((seq![bp.0] + rest.0)[t] == rest.0[t - 1]);
                }
            }
        }
    }
}

/// Whatever the parser accepts, the renderer can write down faithfully.
pub proof fn lemma_parse_cfg_renderable(text: Seq<char>)
    ensures
        spec_parse_cfg(text) matches Some(blocks) ==> cfg_renderable(blocks),
{
    if spec_parse_cfg(text) is Some {
        let a = spec_expect(text, spec_jskip(text, 0), "{"@).unwrap();
        let b = spec_member_start(text, a, "\"logical_blocks\""@).unwrap();
        lemma_blocks_fields(text, b);
    }
}

/// Parse, serialize, parse: parsing the canonical rendering of a parsed
/// document yields the same configuration as parsing the document itself.
pub proof fn lemma_parse_serialize_parse(text: Seq<char>)
    requires
        spec_parse_cfg(text) is Some,
    ensures
        spec_parse_cfg(spec_render_cfg(spec_parse_cfg(text).unwrap())) == spec_parse_cfg(text),
{
    lemma_parse_cfg_renderable(text);
    lemma_parse_render_cfg(spec_parse_cfg(text).unwrap());
}

fn j_ws_char(c: char) -> (r: bool)
    ensures
        r == is_j_ws(c),
{
    c == ' ' || c == '\t' || c == '\r' || c == '\n'
}

fn digit_c(c: char) -> (r: bool)
    ensures
        r == is_digit(c),
{
    '0' <= c && c <= '9'
}

fn jskip(s: &Vec<char>, i: usize) -> (j: usize)
    requires
        i <= s@.len(),
    ensures
        j as int == spec_jskip(s@, i as int),
        i <= j <= s@.len(),
    decreases s@.len() - i,
{
    if i < s.len() && j_ws_char(s[i]) {
        jskip(s, i + 1)
    } else {
        i
    }
}

fn str_end(s: &Vec<char>, i: usize) -> (j: usize)
    requires
        i <= s@.len(),
    ensures
        j as int == spec_str_end(s@, i as int),
        i <= j <= s@.len(),
    decreases s@.len() - i,
{
    if i < s.len() && s[i] != '"' && s[i] != '\\' {
        str_end(s, i + 1)
    } else {
        i
    }
}

fn expect_lit(s: &Vec<char>, i: usize, lit: &str) -> (r: Option<usize>)
    requires
        i <= s@.len(),
    ensures
        match (r, spec_expect(s@, i as int, lit@)) {
            (Some(j), Some(sj)) => j as int == sj && i <= j <= s@.len(),
            (None, None) => true,
            _ => false,
        },
{
    let n = lit.unicode_len();
    let slen = s.len();
    if n > slen - i {
        return None;
    }
    let mut k: usize = 0;
    while k < n
        invariant
            k <= n,
            i + n <= slen,
            slen == s@.len(),
            n == lit@.len(),
            forall|t: int| 0 <= t < k ==> s@[i + t] == lit@[t],
        decreases n - k,
    {
        if s[i + k] != lit.get_char(k) {
            proof {
                assert(s@.subrange(i as int, i + n as int)[k as int] != lit@[k as int]);
            }
            return None;
        }
        k = k + 1;
    }
    proof {
        assert(s@.subrange(i as int, i + n as int) =~= lit@);
    }
    Some(i + n)
}

fn parse_jstring(s: &Vec<char>, i: usize) -> (r: Option<(String, usize)>)
    requires
        i <= s@.len(),
    ensures
        match (r, spec_parse_jstring(s@, i as int)) {
            (Some((v, j)), Some((sv, sj))) => v@ == sv && j as int == sj && i < j <= s@.len(),
            (None, None) => true,
            _ => false,
        },
{
    if i < s.len() && s[i] == '"' {
        let e = str_end(s, i + 1);
        if e < s.len() && s[e] == '"' {
            Some((chars_to_string_range(s, i + 1, e), e + 1))
        } else {
            None
        }
    } else {
        None
    }
}

fn digit_value(c: char) -> (d: u64)
    requires
        is_digit(c),
    ensures
        d as int == digit_val(c),
        d <= 9,
{
    (c as u32 - '0' as u32) as u64
}

fn num_rec(s: &Vec<char>, i: usize, acc: u64, max: u64) -> (r: Option<(u64, usize)>)
    requires
        i <= s@.len(),
        acc <= max,
        max >= 9,
    ensures
        match (r, spec_num_rec(s@, i as int, acc as int, max as int)) {
            (Some((v, j)), Some((sv, sj))) => v as int == sv && v <= max && j as int == sj && i
                <= j <= s@.len(),
            (None, None) => true,
            _ => false,
        },
    decreases s@.len() - i,
{
    if i < s.len() && digit_c(s[i]) {
        let d = digit_value(s[i]);
        if acc > (max - d) / 10 {
            proof {
                assert(acc as int * 10 + d as int > max as int);
            }
            None
        } else {
            proof {
                assert(10 * (acc as int) <= 10 * (((max - d) as int) / 10));
                assert(10 * (((max - d) as int) / 10) <= (max - d) as int);
            }
            num_rec(s, i + 1, acc * 10 + d, max)
        }
    } else {
        Some((acc, i))
    }
}

fn parse_num(s: &Vec<char>, i: usize, max: u64) -> (r: Option<(u64, usize)>)
    requires
        i <= s@.len(),
        max >= 9,
    ensures
        match (r, spec_parse_num(s@, i as int, max as int)) {
            (Some((v, j)), Some((sv, sj))) => v as int == sv && v <= max && j as int == sj && i
                <= j <= s@.len(),
            (None, None) => true,
            _ => false,
        },
{
    if i < s.len() && digit_c(s[i]) {
        num_rec(s, i, 0, max)
    } else {
        None
    }
}

fn member_start(s: &Vec<char>, i: usize, key: &str) -> (r: Option<usize>)
    requires
        i <= s@.len(),
    ensures
        match (r, spec_member_start(s@, i as int, key@)) {
            (Some(j), Some(sj)) => j as int == sj && j <= s@.len(),
            (None, None) => true,
            _ => false,
        },
{
    let a = match expect_lit(s, jskip(s, i), key) {
        Some(a) => a,
        None => {
            return None;
        },
    };
    let b = match expect_lit(s, jskip(s, a), ":") {
        Some(b) => b,
        None => {
            return None;
        },
    };
    Some(jskip(s, b))
}

fn parse_region(s: &Vec<char>, i: usize) -> (r: Option<(LogicalBlockDestination, usize)>)
    requires
        i <= s@.len(),
    ensures
        match (r, spec_parse_region(s@, i as int)) {
            (Some((d, j)), Some((sd, sj))) => d.region() == sd && j as int == sj && j <= s@.len(),
            (None, None) => true,
            _ => false,
        },
{
    let a = match expect_lit(s, i, "{") {
        Some(x) => x,
        None => {
            return None;
        },
    };
    let b = match member_start(s, a, "\"path\"") {
        Some(x) => x,
        None => {
            return None;
        },
    };
    let (path, c) = match parse_jstring(s, b) {
        Some(x) => x,
        None => {
            return None;
        },
    };
    let d = match expect_lit(s, jskip(s, c), ",") {
        Some(x) => x,
        None => {
            return None;
        },
    };
    let e = match member_start(s, d, "\"offset\"") {
        Some(x) => x,
        None => {
            return None;
        },
    };
    let (offset, f) = match parse_num(s, e, u64::MAX) {
        Some(x) => x,
        None => {
            return None;
        },
    };
    let g = match expect_lit(s, jskip(s, f), ",") {
        Some(x) => x,
        None => {
            return None;
        },
    };
    let h = match member_start(s, g, "\"size\"") {
        Some(x) => x,
        None => {
            return None;
        },
    };
    let (size, j) = match parse_num(s, h, usize::MAX as u64) {
        Some(x) => x,
        None => {
            return None;
        },
    };
    let k = match expect_lit(s, jskip(s, j), "}") {
        Some(x) => x,
        None => {
            return None;
        },
    };
    proof {
        assert(size <= usize::MAX as u64);
        assert((size as usize) as int == size as int);
    }
    Some((LogicalBlockDestination::new(path, offset, size as usize), k))
}

fn parse_banks(s: &Vec<char>, i: usize) -> (r: Option<(Banks, usize)>)
    requires
        i <= s@.len(),
    ensures
        match (r, spec_parse_banks(s@, i as int)) {
            (Some((banks, j)), Some(((sa, sb), sj))) => banks.bank_a.region() == sa
                && banks.bank_b.region() == sb && j as int == sj && j <= s@.len(),
            (None, None) => true,
            _ => false,
        },
{
    let a = match expect_lit(s, i, "{") {
        Some(x) => x,
        None => {
            return None;
        },
    };
    let b = match member_start(s, a, "\"bank_a\"") {
        Some(x) => x,
        None => {
            return None;
        },
    };
    let (bank_a, c) = match parse_region(s, b) {
        Some(x) => x,
        None => {
            return None;
        },
    };
    let d = match expect_lit(s, jskip(s, c), ",") {
        Some(x) => x,
        None => {
            return None;
        },
    };
    let e = match member_start(s, d, "\"bank_b\"") {
        Some(x) => x,
        None => {
            return None;
        },
    };
    let (bank_b, f) = match parse_region(s, e) {
        Some(x) => x,
        None => {
            return None;
        },
    };
    let g = match expect_lit(s, jskip(s, f), "}") {
        Some(x) => x,
        None => {
            return None;
        },
    };
    Some((Banks { bank_a, bank_b }, g))
}

fn parse_block(s: &Vec<char>, i: usize) -> (r: Option<(LogicalBlock, usize)>)
    requires
        i <= s@.len(),
    ensures
        match (r, spec_parse_block(s@, i as int)) {
            (Some((block, j)), Some((sb, sj))) => block.cfg() == sb && j as int == sj && j
                <= s@.len(),
            (None, None) => true,
            _ => false,
        },
{
    let a = match expect_lit(s, i, "{") {
        Some(x) => x,
        None => {
            return None;
        },
    };
    let b = match member_start(s, a, "\"name\"") {
        Some(x) => x,
        None => {
            return None;
        },
    };
    let (name, c) = match parse_jstring(s, b) {
        Some(x) => x,
        None => {
            return None;
        },
    };
    let d = match expect_lit(s, jskip(s, c), ",") {
        Some(x) => x,
        None => {
            return None;
        },
    };
    let e = match member_start(s, d, "\"id\"") {
        Some(x) => x,
        None => {
            return None;
        },
    };
    let (id, f) = match parse_jstring(s, e) {
        Some(x) => x,
        None => {
            return None;
        },
    };
    let g = match expect_lit(s, jskip(s, f), ",") {
        Some(x) => x,
        None => {
            return None;
        },
    };
    let h = match member_start(s, g, "\"destination\"") {
        Some(x) => x,
        None => {
            return None;
        },
    };
    let (destination, j) = match parse_banks(s, h) {
        Some(x) => x,
        None => {
            return None;
        },
    };
    let k = match expect_lit(s, jskip(s, j), "}") {
        Some(x) => x,
        None => {
            return None;
        },
    };
    Some((LogicalBlock { name, id, destination }, k))
}

fn parse_more_blocks(s: &Vec<char>, i: usize) -> (r: Option<(Vec<LogicalBlock>, usize)>)
    requires
        i <= s@.len(),
    ensures
        match (r, spec_parse_more_blocks(s@, i as int)) {
            (Some((blocks, j)), Some((sb, sj))) => blocks@.map_values(|b: LogicalBlock| b.cfg())
                == sb && j as int == sj && j <= s@.len(),
            (None, None) => true,
            _ => false,
        },
    decreases s@.len() - i,
{
    let j = jskip(s, i);
    if j < s.len() && s[j] == ']' {
        proof {
            assert(Seq::<LogicalBlock>::empty().map_values(|b: LogicalBlock| b.cfg())
                =~= Seq::<BlockCfg>::empty());
        }
        return Some((Vec::new(), j + 1));
    }
    if !(j < s.len() && s[j] == ',') {
        return None;
    }
    let (block, a) = match parse_block(s, jskip(s, j + 1)) {
        Some(x) => x,
        None => {
            return None;
        },
    };
    if i < a && a <= s.len() {
        match parse_more_blocks(s, a) {
            None => None,
            Some((rest, e)) => {
                let ghost rest0 = rest@;
                let mut rest = rest;
                rest.insert(0, block);
                proof {
                    assert(rest@ == rest0.insert(0, block));
                    assert(rest@.map_values(|b: LogicalBlock| b.cfg()) =~= seq![block.cfg()]
                        + rest0.map_values(|b: LogicalBlock| b.cfg()));
                }
                Some((rest, e))
            },
        }
    } else {
        None
    }
}

fn parse_blocks(s: &Vec<char>, i: usize) -> (r: Option<(Vec<LogicalBlock>, usize)>)
    requires
        i <= s@.len(),
    ensures
        match (r, spec_parse_blocks(s@, i as int)) {
            (Some((blocks, j)), Some((sb, sj))) => blocks@.map_values(|b: LogicalBlock| b.cfg())
                == sb && j as int == sj && j <= s@.len(),
            (None, None) => true,
            _ => false,
        },
{
    let a = match expect_lit(s, i, "[") {
        Some(x) => x,
        None => {
            return None;
        },
    };
    let j = jskip(s, a);
    if j < s.len() && s[j] == ']' {
        proof {
            assert(Seq::<LogicalBlock>::empty().map_values(|b: LogicalBlock| b.cfg())
                =~= Seq::<BlockCfg>::empty());
        }
        return Some((Vec::new(), j + 1));
    }
    let (block, b) = match parse_block(s, j) {
        Some(x) => x,
        None => {
            return None;
        },
    };
    match parse_more_blocks(s, b) {
        None => None,
        Some((rest, e)) => {
            let ghost rest0 = rest@;
            let mut rest = rest;
            rest.insert(0, block);
            proof {
                assert(rest@ == rest0.insert(0, block));
                assert(rest@.map_values(|b2: LogicalBlock| b2.cfg()) =~= seq![block.cfg()]
                    + rest0.map_values(|b2: LogicalBlock| b2.cfg()));
            }
            Some((rest, e))
        },
    }
}

/// Parse a whole memory-map document.
pub fn parse_cfg(text: &str) -> (r: Option<LogicalBlockCfg>)
    ensures
        match (r, spec_parse_cfg(text@)) {
            (Some(cfg), Some(sc)) => cfg.cfg() == sc,
            (None, None) => true,
            _ => false,
        },
{
    let s = str_to_chars(text);
    let a = match expect_lit(&s, jskip(&s, 0), "{") {
        Some(x) => x,
        None => {
            return None;
        },
    };
    let b = match member_start(&s, a, "\"logical_blocks\"") {
        Some(x) => x,
        None => {
            return None;
        },
    };
    let (blocks, c) = match parse_blocks(&s, b) {
        Some(x) => x,
        None => {
            return None;
        },
    };
    let d = match expect_lit(&s, jskip(&s, c), "}") {
        Some(x) => x,
        None => {
            return None;
        },
    };
    if jskip(&s, d) == s.len() {
        Some(LogicalBlockCfg { logical_blocks: blocks })
    } else {
        None
    }
}

fn digit_char_of(d: u64) -> (c: char)
    requires
        d < 10,
    ensures
        c == digit_char(d as int),
{
    ((d as u8) + 48) as char
}

fn render_num(v: u64) -> (r: String)
    ensures
        r@ == spec_render_num(v as int),
    decreases v,
{
    if v < 10 {
        let mut s = String::new();
        push_char(&mut s, digit_char_of(v));
        proof {
            assert(s@ =~= spec_render_num(v as int));
        }
        s
    } else {
        let mut s = render_num(v / 10);
        push_char(&mut s, digit_char_of(v % 10));
        s
    }
}

fn render_region(d: &LogicalBlockDestination) -> (r: String)
    ensures
        r@ == spec_render_region(d.region()),
{
    let mut out = String::from_str("{\"path\":\"");
    out.append(d.get_path());
    out.append("\",\"offset\":");
    let n1 = render_num(d.get_offset());
    out.append(n1.as_str());
    out.append(",\"size\":");
    let n2 = render_num(d.get_size() as u64);
    out.append(n2.as_str());
    out.append("}");
    out
}

fn render_block(b: &LogicalBlock) -> (r: String)
    ensures
        r@ == spec_render_block(b.cfg()),
{
    let mut out = String::from_str("{\"name\":\"");
    out.append(b.name.as_str());
    out.append("\",\"id\":\"");
    out.append(b.id.as_str());
    out.append("\",\"destination\":{\"bank_a\":");
    let ra = render_region(&b.destination.bank_a);
    out.append(ra.as_str());
    out.append(",\"bank_b\":");
    let rb = render_region(&b.destination.bank_b);
    out.append(rb.as_str());
    out.append("}}");
    out
}

fn render_blocks(blocks: &Vec<LogicalBlock>, k: usize) -> (r: String)
    requires
        k <= blocks@.len(),
    ensures
        r@ == spec_render_blocks(blocks@.map_values(|b: LogicalBlock| b.cfg()).skip(k as int)),
    decreases blocks@.len() - k,
{
    let ghost model = blocks@.map_values(|b: LogicalBlock| b.cfg());
    if k == blocks.len() {
        proof {
            assert(model.skip(k as int) =~= Seq::<BlockCfg>::empty());
        }
        String::new()
    } else if k + 1 == blocks.len() {
        proof {
            assert(model.skip(k as int).len() == 1);
            assert(model.skip(k as int)[0] == model[k as int]);
        }
        render_block(&blocks[k])
    } else {
        proof {
            assert(model.skip(k as int)[0] == model[k as int]);
            assert(model.skip(k as int).drop_first() =~= model.skip(k as int + 1));
        }
        let mut out = render_block(&blocks[k]);
        out.append(",");
        let rest = render_blocks(blocks, k + 1);
        out.append(rest.as_str());
        out
    }
}

/// Write a configuration down as the canonical memory-map document.
pub fn render_cfg(cfg: &LogicalBlockCfg) -> (r: String)
    ensures
        r@ == spec_render_cfg(cfg.cfg()),
{
    let mut out = String::from_str("{\"logical_blocks\":[");
    let blocks = render_blocks(&cfg.logical_blocks, 0);
    out.append(blocks.as_str());
    out.append("]}");
    proof {
        assert(cfg.cfg().skip(0) =~= cfg.cfg());
    }
    out
}

} // verus!
