use vstd::prelude::*;
use vstd::string::StringExecFns;

use crate::text::{chars_of, find_char, find_char_from, string_of};
use crate::tree::{node_total, NodeView, Tree};

verus! {

/// The name shown for node `i`: its parent's name where the parent exists, else its own.
pub open spec fn parent_name_spec(a: Seq<NodeView>, i: int) -> Seq<char> {
    match a[i].parent {
        Some(p) => if p < a.len() {
            a[p as int].name
        } else {
            a[i].name
        },
        None => a[i].name,
    }
}

/// The name of node `index`'s parent, or the node's own name where it has none.
pub fn parent_name(tree: &Tree, index: usize) -> (r: String)
    requires
        index < tree.nodes().len(),
    ensures
        r@ == parent_name_spec(tree.nodes(), index as int),
{
    let node = &tree.arena[index];
    assert(node@ == tree.nodes()[index as int]);
    match node.parent {
        Some(p) => if p < tree.arena.len() {
            assert(tree.arena[p as int]@ == tree.nodes()[p as int]);
            tree.arena[p].name.clone()
        } else {
            node.name.clone()
        },
        None => node.name.clone(),
    }
}

/// The label and self flag of the rectangle drawn for node `i`: a synthesised self leaf
/// is labelled with its parent's name.
pub open spec fn label_spec(a: Seq<NodeView>, i: int) -> (Seq<char>, bool) {
    if a[i].is_self {
        (parent_name_spec(a, i), true)
    } else {
        (a[i].name, false)
    }
}

/// The label of the rectangle for node `index`, and whether it stands for self time.
pub fn node_label(tree: &Tree, index: usize) -> (r: (String, bool))
    requires
        index < tree.nodes().len(),
    ensures
        (r.0@, r.1) == label_spec(tree.nodes(), index as int),
{
    let node = &tree.arena[index];
    assert(node@ == tree.nodes()[index as int]);
    if node.is_self {
        (parent_name(tree, index), true)
    } else {
        (node.name.clone(), false)
    }
}

/// The children of node `i` among its first `k` whose subtree total is positive, each
/// with that total.
pub open spec fn weighted_children(a: Seq<NodeView>, i: int, k: int) -> Seq<(usize, u64)>
    decreases k,
{
    if k <= 0 {
        seq![]
    } else {
        let c = a[i].children[k - 1];
        let t = node_total(a, c as int);
        weighted_children(a, i, k - 1) + if t > 0 {
            seq![(c, t as u64)]
        } else {
            seq![]
        }
    }
}

/// The children that get area when node `index` is laid out: those with a positive
/// subtree total, in child order, each with its total.
pub fn layout_children(tree: &Tree, index: usize) -> (r: Vec<(usize, u64)>)
    requires
        tree.wf(),
        index < tree.nodes().len(),
    ensures
        r@ == weighted_children(
            tree.nodes(),
            index as int,
            tree.nodes()[index as int].children.len() as int,
        ),
{
    let ghost a = tree.nodes();
    let node = &tree.arena[index];
    assert(node@ == a[index as int]);
    let mut out: Vec<(usize, u64)> = Vec::new();
    for k in 0..node.children.len()
        invariant
            tree.wf(),
            a == tree.nodes(),
            index < a.len(),
            node@ == a[index as int],
            out@ == weighted_children(a, index as int, k as int),
    {
        let c = node.children[k];
        assert(index < a[index as int].children[k as int] < a.len());
        let t = tree.sum_children(c);
        if t > 0 {
            out.push((c, t));
        }
        assert(out@ =~= weighted_children(a, index as int, k + 1));
    }
    out
}

/// The 31-multiplier string hash of `s`, computed with `i32` wrapping arithmetic.
pub open spec fn name_hash(s: Seq<char>) -> i32
    decreases s.len(),
{
    if s.len() == 0 {
        0
    } else {
        name_hash(s.drop_last()).wrapping_mul(31).wrapping_add(s.last() as i32)
    }
}

/// The part of a label before its first `.`.
pub open spec fn first_segment(s: Seq<char>) -> Seq<char> {
    s.take(find_char(s, '.', 0, s.len() as int))
}

/// The hue (in degrees, from 0 to 359) given to a label: its first segment's hash, offset
/// by 210, taken modulo 360.
pub open spec fn hue_spec(label: Seq<char>) -> int {
    (name_hash(first_segment(label)).wrapping_add(210) as int) % 360
}

/// The hue of the color that a label gets; the same label always gets the same hue.
pub fn label_hue(label: &str) -> (r: u32)
    ensures
        r as int == hue_spec(label@),
        0 <= r < 360,
{
    let s = chars_of(label);
    let end = find_char_from(&s, '.', 0, s.len());
    let mut hash: i32 = 0;
    let mut k: usize = 0;
    while k < end
        invariant
            end <= s.len(),
            k <= end,
            hash == name_hash(s@.take(end as int).take(k as int)),
        decreases end - k,
    {
        assert(s@.take(end as int).take(k + 1).drop_last() =~= s@.take(end as int).take(k as int));
        let c = s[k];
        hash = hash.wrapping_mul(31).wrapping_add(c as i32);
        k = k + 1;
    }
    assert(s@.take(end as int).take(end as int) =~= s@.take(end as int));
    let h = hash.wrapping_add(210);
    // Shift by a multiple of 360 that makes every `i32` nonnegative.
    let shifted = (h as i64 + 2_160_000_000i64) as u64;
    let hue = shifted % 360;
    proof {
        let hi = h as int;
        assert(shifted as int == hi + 360 * 6_000_000);
        assert((hi + 360 * 6_000_000) % 360 == hi % 360) by {
            vstd::arithmetic::div_mod::lemma_mod_multiples_vanish(6_000_000, hi, 360);
        }
    }
    hue as u32
}

pub open spec fn hex_digits() -> Seq<char> {
    "0123456789abcdef"@
}

/// `#` and two lower-case hex digits for each channel.
pub open spec fn hex_color_spec(r: u8, g: u8, b: u8) -> Seq<char> {
    seq![
        '#',
        hex_digits()[r as int / 16],
        hex_digits()[r as int % 16],
        hex_digits()[g as int / 16],
        hex_digits()[g as int % 16],
        hex_digits()[b as int / 16],
        hex_digits()[b as int % 16],
    ]
}

/// Writes a color as `#rrggbb`.
pub fn hex_color(r: u8, g: u8, b: u8) -> (out: String)
    ensures
        out@ == hex_color_spec(r, g, b),
{
    let digits = chars_of("0123456789abcdef");
    proof {
        reveal_strlit("0123456789abcdef");
    }
    let mut cs: Vec<char> = Vec::new();
    cs.push('#');
    cs.push(digits[(r / 16) as usize]);
    cs.push(digits[(r % 16) as usize]);
    cs.push(digits[(g / 16) as usize]);
    cs.push(digits[(g % 16) as usize]);
    cs.push(digits[(b / 16) as usize]);
    cs.push(digits[(b % 16) as usize]);
    assert(cs@ =~= hex_color_spec(r, g, b));
    string_of(&cs, 0, cs.len())
}

/// What one character becomes in XML text.
pub open spec fn xml_escape_char(c: char) -> Seq<char> {
    if c == '&' {
        "&amp;"@
    } else if c == '<' {
        "&lt;"@
    } else if c == '>' {
        "&gt;"@
    } else if c == '"' {
        "&quot;"@
    } else if c == '\'' {
        "&apos;"@
    } else {
        seq![c]
    }
}

/// `s` with each character replaced by its XML escape.
pub open spec fn xml_escape(s: Seq<char>) -> Seq<char>
    decreases s.len(),
{
    if s.len() == 0 {
        seq![]
    } else {
        xml_escape(s.drop_last()) + xml_escape_char(s.last())
    }
}

fn push_all(out: &mut Vec<char>, piece: &Vec<char>)
    ensures
        final(out)@ == old(out)@ + piece@,
{
    let ghost start = out@;
    for k in 0..piece.len()
        invariant
            out@ == start + piece@.take(k as int),
    {
        out.push(piece[k]);
        assert(start + piece@.take(k + 1) =~= (start + piece@.take(k as int)).push(piece@[k as int]));
    }
    assert(piece@.take(piece.len() as int) =~= piece@);
}

/// Escapes `&`, `<`, `>`, `"` and `'` for use in XML text and attributes.
pub fn escape_xml(text: &str) -> (r: String)
    ensures
        r@ == xml_escape(text@),
{
    let s = chars_of(text);
    let amp = chars_of("&amp;");
    let lt = chars_of("&lt;");
    let gt = chars_of("&gt;");
    let quot = chars_of("&quot;");
    let apos = chars_of("&apos;");
    let mut out: Vec<char> = Vec::new();
    for k in 0..s.len()
        invariant
            s@ == text@,
            amp@ == "&amp;"@,
            lt@ == "&lt;"@,
            gt@ == "&gt;"@,
            quot@ == "&quot;"@,
            apos@ == "&apos;"@,
            out@ == xml_escape(s@.take(k as int)),
    {
        let c = s[k];
        assert(s@.take(k + 1).drop_last() =~= s@.take(k as int));
        if c == '&' {
            push_all(&mut out, &amp);
        } else if c == '<' {
            push_all(&mut out, &lt);
        } else if c == '>' {
            push_all(&mut out, &gt);
        } else if c == '"' {
            push_all(&mut out, &quot);
        } else if c == '\'' {
            push_all(&mut out, &apos);
        } else {
            out.push(c);
        }
        assert(out@ =~= xml_escape(s@.take(k + 1)));
    }
    assert(s@.take(s.len() as int) =~= s@);
    string_of(&out, 0, out.len())
}

} // verus!
