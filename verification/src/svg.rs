//! String-built SVG rendering: the contributors avatar wall, the fixed parts of
//! the star-history chart, its x-axis ticks, and XML escaping. Output is
//! deterministic: sequential IDs, integer coordinates, no generation time.

use vstd::prelude::*;

use crate::contributors::WallEntry;
use crate::text::{
    chars_of, dec, digit, digit_char, is_ascii_alnum, lemma_pow2_pos, pow2, push_char, push_dec,
    push_dec_u128, push_str, str_eq,
};
use crate::timefmt::{format_utc, is_label_pattern, utc_format};

verus! {

/// The font stack used by every text element.
pub const FONT: &'static str = "-apple-system,'Segoe UI',Roboto,Helvetica,Arial,sans-serif";

/// Chart color palette.
pub struct Theme {
    pub bg: &'static str,
    pub text: &'static str,
    pub subtext: &'static str,
    pub grid: &'static str,
    pub axis: &'static str,
    pub line: &'static str,
}

impl Theme {
    /// The light palette.
    pub fn light() -> (t: Self)
        ensures
            t.bg@ == "#ffffff"@,
            t.text@ == "#1f2328"@,
            t.subtext@ == "#59636e"@,
            t.grid@ == "#e5e8eb"@,
            t.axis@ == "#8c959f"@,
            t.line@ == "#2563eb"@,
    {
        Theme {
            bg: "#ffffff",
            text: "#1f2328",
            subtext: "#59636e",
            grid: "#e5e8eb",
            axis: "#8c959f",
            line: "#2563eb",
        }
    }

    /// The dark palette.
    pub fn dark() -> (t: Self)
        ensures
            t.bg@ == "#0d1117"@,
            t.text@ == "#e6edf3"@,
            t.subtext@ == "#9198a1"@,
            t.grid@ == "#21262d"@,
            t.axis@ == "#3d444d"@,
            t.line@ == "#60a5fa"@,
    {
        Theme {
            bg: "#0d1117",
            text: "#e6edf3",
            subtext: "#9198a1",
            grid: "#21262d",
            axis: "#3d444d",
            line: "#60a5fa",
        }
    }
}

/// The escaped form of one character.
pub open spec fn escape_char(c: char) -> Seq<char> {
    if c == '&' {
        "&amp;"@
    } else if c == '<' {
        "&lt;"@
    } else if c == '>' {
        "&gt;"@
    } else if c == '"' {
        "&quot;"@
    } else if c == '\'' {
        "&#39;"@
    } else {
        seq![c]
    }
}

/// `s` with each of `& < > " '` replaced by its XML entity.
pub open spec fn escape_seq(s: Seq<char>) -> Seq<char>
    decreases s.len(),
{
    if s.len() == 0 {
        seq![]
    } else {
        escape_seq(s.drop_last()) + escape_char(s.last())
    }
}

/// Appends the escaped form of `cs`.
fn push_escaped(s: &mut String, cs: &[char])
    ensures
        final(s)@ == old(s)@ + escape_seq(cs@),
{
    let mut i: usize = 0;
    while i < cs.len()
        invariant
            i <= cs.len(),
            s@ == old(s)@ + escape_seq(cs@.take(i as int)),
        decreases cs.len() - i,
    {
        let c = cs[i];
        let ghost before = s@;
        if c == '&' {
            push_str(s, "&amp;");
        } else if c == '<' {
            push_str(s, "&lt;");
        } else if c == '>' {
            push_str(s, "&gt;");
        } else if c == '"' {
            push_str(s, "&quot;");
        } else if c == '\'' {
            push_str(s, "&#39;");
        } else {
            push_char(s, c);
        }
        assert(cs@.take(i + 1).drop_last() == cs@.take(i as int));
        assert(s@ == before + escape_char(c));
        i += 1;
    }
    assert(cs@.take(cs.len() as int) == cs@);
}

/// Escape XML text/attribute content.
pub fn escape_xml(s: &str) -> (r: String)
    ensures
        r@ == escape_seq(s@),
{
    let cs = chars_of(s);
    let mut r = String::new();
    push_escaped(&mut r, cs.as_slice());
    r
}

/// Reads XML text back: each of the entities `&amp; &lt; &gt; &quot; &#39;`,
/// taken left to right, becomes its character; everything else stays.
pub open spec fn unescape_seq(s: Seq<char>) -> Seq<char>
    decreases s.len(),
{
    if s.len() == 0 {
        seq![]
    } else if s.len() >= 5 && s.take(5) == "&amp;"@ {
        seq!['&'] + unescape_seq(s.skip(5))
    } else if s.len() >= 4 && s.take(4) == "&lt;"@ {
        seq!['<'] + unescape_seq(s.skip(4))
    } else if s.len() >= 4 && s.take(4) == "&gt;"@ {
        seq!['>'] + unescape_seq(s.skip(4))
    } else if s.len() >= 6 && s.take(6) == "&quot;"@ {
        seq!['"'] + unescape_seq(s.skip(6))
    } else if s.len() >= 5 && s.take(5) == "&#39;"@ {
        seq!['\''] + unescape_seq(s.skip(5))
    } else {
        seq![s[0]] + unescape_seq(s.skip(1))
    }
}

/// One of the characters that escaping replaces.
pub open spec fn is_xml_special(c: char) -> bool {
    c == '&' || c == '<' || c == '>' || c == '"' || c == '\''
}

proof fn lemma_escape_front(c: char, t: Seq<char>)
    ensures
        escape_seq(seq![c] + t) == escape_char(c) + escape_seq(t),
    decreases t.len(),
{
    if t.len() == 0 {
        assert((seq![c] + t).drop_last() =~= Seq::<char>::empty());
        assert(escape_seq(Seq::<char>::empty()) =~= Seq::<char>::empty());
        assert((seq![c] + t).last() == c);
        assert(escape_seq(seq![c] + t) =~= escape_char(c));
    } else {
        lemma_escape_front(c, t.drop_last());
        assert((seq![c] + t).drop_last() =~= seq![c] + t.drop_last());
        assert((seq![c] + t).last() == t.last());
        assert(escape_seq(seq![c] + t) =~= escape_char(c) + escape_seq(t.drop_last()) + escape_char(
            t.last(),
        ));
    }
}

proof fn lemma_unescape_char(c: char, rest: Seq<char>)
    ensures
        unescape_seq(escape_char(c) + rest) == seq![c] + unescape_seq(rest),
{
    reveal_strlit("&amp;");
    reveal_strlit("&lt;");
    reveal_strlit("&gt;");
    reveal_strlit("&quot;");
    reveal_strlit("&#39;");
    let e = escape_char(c);
    let s = e + rest;
    assert(s.skip(e.len() as int) =~= rest);
    assert(s.take(e.len() as int) =~= e);
    assert(s[0] == e[0]);
    if e.len() >= 2 {
        assert(s[1] == e[1]);
    }
    if c == '&' {
    } else if c == '<' {
        assert(s.take(5) != "&amp;"@ || s.len() < 5) by {
            if s.len() >= 5 {
                assert(s.take(5)[1] == 'l');
            }
        }
    } else if c == '>' {
        if s.len() >= 5 {
            assert(s.take(5)[1] == 'g');
        }
        assert(s.take(4)[1] == 'g');
    } else if c == '"' {
        if s.len() >= 5 {
            assert(s.take(5)[1] == 'q');
        }
        assert(s.take(4)[1] == 'q');
    } else if c == '\'' {
        assert(s.take(4)[1] == '#');
        assert(s.take(5)[1] == '#');
    } else {
        assert(e =~= seq![c]);
        if s.len() >= 4 {
            assert(s.take(4)[0] == c);
        }
        if s.len() >= 5 {
            assert(s.take(5)[0] == c);
        }
        if s.len() >= 6 {
            assert(s.take(6)[0] == c);
        }
    }
}

/// Law: escaping leaves no `<`, `>`, `"` or `'`; text without any of the five
/// special characters is left unchanged; and reading the entities back, left
/// to right, gives the original text.
pub proof fn lemma_escape_xml_laws(s: Seq<char>)
    ensures
        forall|i: int|
            0 <= i < escape_seq(s).len() ==> !(#[trigger] escape_seq(s)[i] == '<' || escape_seq(s)[i]
                == '>' || escape_seq(s)[i] == '"' || escape_seq(s)[i] == '\''),
        (forall|i: int| 0 <= i < s.len() ==> !is_xml_special(#[trigger] s[i])) ==> escape_seq(s) == s,
        unescape_seq(escape_seq(s)) == s,
    decreases s.len(),
{
    reveal_strlit("&amp;");
    reveal_strlit("&lt;");
    reveal_strlit("&gt;");
    reveal_strlit("&quot;");
    reveal_strlit("&#39;");
    if s.len() > 0 {
        let p = s.drop_last();
        lemma_escape_xml_laws(p);
        let e = escape_char(s.last());
        assert(escape_seq(s) == escape_seq(p) + e);
        assert forall|i: int| 0 <= i < escape_seq(s).len() implies !(#[trigger] escape_seq(s)[i] == '<'
            || escape_seq(s)[i] == '>' || escape_seq(s)[i] == '"' || escape_seq(s)[i] == '\'') by {
            if i >= escape_seq(p).len() {
                assert(escape_seq(s)[i] == e[i - escape_seq(p).len()]);
            }
        }
        if forall|i: int| 0 <= i < s.len() ==> !is_xml_special(#[trigger] s[i]) {
            assert(!is_xml_special(s[s.len() - 1]));
            assert forall|i: int| 0 <= i < p.len() implies !is_xml_special(#[trigger] p[i]) by {
                assert(p[i] == s[i]);
            }
            assert(escape_seq(s) =~= s);
        }
    } else {
        assert(escape_seq(s) =~= s);
    }
    lemma_unescape_round_trip(s);
}

proof fn lemma_unescape_round_trip(s: Seq<char>)
    ensures
        unescape_seq(escape_seq(s)) == s,
    decreases s.len(),
{
    if s.len() > 0 {
        let t = s.drop_first();
        assert(s =~= seq![s[0]] + t);
        lemma_escape_front(s[0], t);
        lemma_unescape_round_trip(t);
        lemma_unescape_char(s[0], escape_seq(t));
    } else {
        assert(escape_seq(s) =~= s);
    }
}

/// Space between wall cells, in pixels.
pub const GAP: u32 = 8;
/// Wall padding around the grid, in pixels.
pub const PAD: u32 = 16;

/// The wall shown when there are no contributors.
pub const EMPTY_WALL: &'static str = "<svg xmlns=\"http://www.w3.org/2000/svg\" viewBox=\"0 0 320 64\" width=\"320\" height=\"64\" role=\"img\" aria-label=\"Contributors\"><text x=\"160\" y=\"36\" font-size=\"14\" text-anchor=\"middle\" fill=\"#8c959f\">No contributors</text></svg>";

/// Wall layout options.
pub struct WallOptions {
    pub cols: u32,
    pub avatar_size: u32,
}

/// Columns actually used: at least one.
pub open spec fn eff_cols(cols: u32) -> int {
    if cols >= 1 {
        cols as int
    } else {
        1
    }
}

/// Cell size actually used: at least 8 pixels.
pub open spec fn eff_size(size: u32) -> int {
    if size >= 8 {
        size as int
    } else {
        8
    }
}

/// Rows needed for `n` cells in `c` columns: `ceil(n / c)`.
pub open spec fn wall_rows(n: int, c: int) -> int {
    (n + c - 1) / c
}

/// Extent of `k` cells of size `z` along one axis, padding and gaps included.
pub open spec fn wall_extent(k: int, z: int) -> int {
    2 * PAD + k * z + (k - 1) * GAP
}

/// Center x of cell `i`.
pub open spec fn cell_cx(i: int, c: int, z: int) -> int {
    PAD + (i % c) * (z + GAP) + z / 2
}

/// Center y of cell `i`.
pub open spec fn cell_cy(i: int, c: int, z: int) -> int {
    PAD + (i / c) * (z + GAP) + z / 2
}

/// The wall's arithmetic stays within `u32` (and its buffer within memory):
/// the inputs the wall renders without overflow.
pub open spec fn wall_fits(entries: Seq<WallEntry>, cols: u32, size: u32) -> bool {
    let c = eff_cols(cols);
    let z = eff_size(size);
    entries.len() > 0 ==> {
        &&& entries.len() <= u32::MAX
        &&& entries.len() * 1024 <= isize::MAX
        &&& wall_extent(c, z) <= u32::MAX
        &&& wall_extent(wall_rows(entries.len() as int, c), z) <= u32::MAX
        &&& (forall|i: int| 0 <= i < entries.len() && entries[i].avatar is None ==> z * 45 <= u32::MAX)
    }
}

/// ASCII upper-casing: lower-case letters map to upper case, all else stays.
pub open spec fn ascii_upper(c: char) -> char {
    if 'a' <= c && c <= 'z' {
        ((c as int) - 32) as char
    } else {
        c
    }
}

/// The first ASCII letter or digit of `s`.
pub open spec fn first_alnum(s: Seq<char>) -> Option<char>
    decreases s.len(),
{
    if s.len() == 0 {
        None
    } else if is_ascii_alnum(s[0]) {
        Some(s[0])
    } else {
        first_alnum(s.drop_first())
    }
}

/// The placeholder letter: the login's first ASCII letter or digit, upper-cased,
/// or `?` when it has none.
pub open spec fn placeholder_letter(login: Seq<char>) -> char {
    match first_alnum(login) {
        Some(c) => ascii_upper(c),
        None => '?',
    }
}

/// `dec` of a non-negative integer.
pub open spec fn num(x: int) -> Seq<char> {
    dec(x as nat)
}

/// The opening `<svg>` tag of a `w` by `h` wall.
pub open spec fn wall_open(w: int, h: int) -> Seq<char> {
    "<svg xmlns=\"http://www.w3.org/2000/svg\" viewBox=\"0 0 "@ + num(w) + " "@ + num(h)
        + "\" width=\""@ + num(w) + "\" height=\""@ + num(h)
        + "\" style=\"max-width:100%;height:auto\" role=\"img\" aria-label=\"Contributors\">"@
}

/// The `<style>` element setting the font stack.
pub open spec fn style_elem() -> Seq<char> {
    "<style>text{font-family:"@ + FONT@ + ";}</style>"@
}

/// The circular clip path of cell `i`.
pub open spec fn clip_elem(i: int, c: int, z: int) -> Seq<char> {
    "<clipPath id=\"c"@ + num(i) + "\"><circle cx=\""@ + num(cell_cx(i, c, z)) + "\" cy=\""@ + num(
        cell_cy(i, c, z),
    ) + "\" r=\""@ + num(z / 2) + "\"/></clipPath>"@
}

/// The clip paths of cells `0..k`.
pub open spec fn clip_elems(k: int, c: int, z: int) -> Seq<char>
    decreases k,
{
    if k <= 0 {
        seq![]
    } else {
        clip_elems(k - 1, c, z) + clip_elem(k - 1, c, z)
    }
}

/// The tooltip of a wall entry, before escaping.
pub open spec fn title_text(e: WallEntry) -> Seq<char> {
    "@"@ + e.login@ + " ("@ + dec(e.contributions as nat) + " contributions)"@
}

/// The picture of cell `i`: the clipped avatar image, or the placeholder circle
/// with its letter.
pub open spec fn avatar_elem(i: int, c: int, z: int, e: WallEntry) -> Seq<char> {
    let cx = cell_cx(i, c, z);
    let cy = cell_cy(i, c, z);
    let r = z / 2;
    match e.avatar {
        Some(uri) => "<image href=\""@ + uri@ + "\" x=\""@ + num(cx - r) + "\" y=\""@ + num(cy - r)
            + "\" width=\""@ + num(z) + "\" height=\""@ + num(z)
            + "\" preserveAspectRatio=\"xMidYMid slice\" clip-path=\"url(#c"@ + num(i) + ")\"/>"@,
        None => "<circle cx=\""@ + num(cx) + "\" cy=\""@ + num(cy) + "\" r=\""@ + num(r)
            + "\" fill=\"#9ea7b3\"/><text x=\""@ + num(cx) + "\" y=\""@ + num(cy) + "\" font-size=\""@
            + num(z * 45 / 100)
            + "\" font-weight=\"bold\" text-anchor=\"middle\" dominant-baseline=\"central\" fill=\"#ffffff\">"@
            + seq![placeholder_letter(e.login@)] + "</text>"@,
    }
}

/// The group of cell `i`: picture and escaped tooltip.
pub open spec fn cell_elem(i: int, c: int, z: int, e: WallEntry) -> Seq<char> {
    "<g>"@ + avatar_elem(i, c, z, e) + "<title>"@ + escape_seq(title_text(e)) + "</title>"@ + "</g>"@
}

/// The groups of cells `0..k`.
pub open spec fn cell_elems(es: Seq<WallEntry>, k: int, c: int, z: int) -> Seq<char>
    decreases k,
{
    if k <= 0 {
        seq![]
    } else {
        cell_elems(es, k - 1, c, z) + cell_elem(k - 1, c, z, es[k - 1])
    }
}

/// The whole wall: the empty-state picture without entries, else the grid in
/// entry order.
pub open spec fn wall_svg(es: Seq<WallEntry>, cols: u32, size: u32) -> Seq<char> {
    if es.len() == 0 {
        EMPTY_WALL@
    } else {
        let c = eff_cols(cols);
        let z = eff_size(size);
        let n = es.len() as int;
        wall_open(wall_extent(c, z), wall_extent(wall_rows(n, c), z)) + style_elem() + "<defs>"@
            + clip_elems(n, c, z) + "</defs>"@ + cell_elems(es, n, c, z) + "</svg>"@
    }
}

/// `part` appears somewhere in `s`.
pub open spec fn occurs_in(part: Seq<char>, s: Seq<char>) -> bool {
    exists|p: Seq<char>, q: Seq<char>| s == p + part + q
}

/// A circular clip path with id `c<i>`, centre `(cx, cy)` and radius `r`.
pub open spec fn clip_circle_markup(i: int, cx: int, cy: int, r: int) -> Seq<char> {
    "<clipPath id=\"c"@ + num(i) + "\"><circle cx=\""@ + num(cx) + "\" cy=\""@ + num(cy) + "\" r=\""@
        + num(r) + "\"/></clipPath>"@
}

/// An image of `href`, `z` pixels square with its top-left corner at `(x, y)`,
/// clipped by the clip path `c<i>`.
pub open spec fn image_markup(href: Seq<char>, i: int, x: int, y: int, z: int) -> Seq<char> {
    "<image href=\""@ + href + "\" x=\""@ + num(x) + "\" y=\""@ + num(y) + "\" width=\""@ + num(z)
        + "\" height=\""@ + num(z)
        + "\" preserveAspectRatio=\"xMidYMid slice\" clip-path=\"url(#c"@ + num(i) + ")\"/>"@
}

proof fn lemma_occurs_within(part: Seq<char>, s: Seq<char>, a: Seq<char>, b: Seq<char>)
    requires
        occurs_in(part, s),
    ensures
        occurs_in(part, a + s + b),
{
    let (p, q) = choose|p: Seq<char>, q: Seq<char>| s == p + part + q;
    assert(a + s + b =~= (a + p) + part + (q + b));
}

proof fn lemma_clip_elems_hold(i: int, k: int, c: int, z: int)
    requires
        0 <= i < k,
    ensures
        occurs_in(clip_elem(i, c, z), clip_elems(k, c, z)),
    decreases k,
{
    if i == k - 1 {
        assert(clip_elems(k, c, z) =~= clip_elems(k - 1, c, z) + clip_elem(i, c, z) + seq![]);
    } else {
        lemma_clip_elems_hold(i, k - 1, c, z);
        lemma_occurs_within(clip_elem(i, c, z), clip_elems(k - 1, c, z), seq![], clip_elem(k - 1, c, z));
        assert(clip_elems(k, c, z) =~= seq![] + clip_elems(k - 1, c, z) + clip_elem(k - 1, c, z));
    }
}

proof fn lemma_cell_elems_hold(es: Seq<WallEntry>, i: int, k: int, c: int, z: int)
    requires
        0 <= i < k,
    ensures
        occurs_in(cell_elem(i, c, z, es[i]), cell_elems(es, k, c, z)),
    decreases k,
{
    if i == k - 1 {
        assert(cell_elems(es, k, c, z) =~= cell_elems(es, k - 1, c, z) + cell_elem(i, c, z, es[i]) + seq![]);
    } else {
        lemma_cell_elems_hold(es, i, k - 1, c, z);
        lemma_occurs_within(
            cell_elem(i, c, z, es[i]),
            cell_elems(es, k - 1, c, z),
            seq![],
            cell_elem(k - 1, c, z, es[k - 1]),
        );
        assert(cell_elems(es, k, c, z) =~= seq![] + cell_elems(es, k - 1, c, z) + cell_elem(
            k - 1,
            c,
            z,
            es[k - 1],
        ));
    }
}

/// Law: in the wall, the avatar image of every cell `i` that has one is the
/// bounding square of the cell's clip circle `c<i>`: the circle is centred on
/// the cell (column `i % cols`, row `i / cols`) with radius half the cell
/// size, and the image's top-left corner is that centre minus the radius on
/// each axis, its side the cell size.
pub proof fn lemma_wall_avatar_covers_clip(es: Seq<WallEntry>, cols: u32, size: u32, i: int)
    requires
        0 <= i < es.len(),
        es[i].avatar is Some,
    ensures
        ({
            let c = eff_cols(cols);
            let z = eff_size(size);
            let r = z / 2;
            let cx = PAD + (i % c) * (z + GAP) + r;
            let cy = PAD + (i / c) * (z + GAP) + r;
            &&& occurs_in(clip_circle_markup(i, cx, cy, r), wall_svg(es, cols, size))
            &&& occurs_in(image_markup(es[i].avatar->0@, i, cx - r, cy - r, z), wall_svg(es, cols, size))
        }),
{
    let c = eff_cols(cols);
    let z = eff_size(size);
    let r = z / 2;
    let n = es.len() as int;
    let cx = PAD + (i % c) * (z + GAP) + r;
    let cy = PAD + (i / c) * (z + GAP) + r;
    let head = wall_open(wall_extent(c, z), wall_extent(wall_rows(n, c), z)) + style_elem() + "<defs>"@;
    let clips = clip_elems(n, c, z);
    let cells = cell_elems(es, n, c, z);
    let w = wall_svg(es, cols, size);
    assert(clip_elem(i, c, z) =~= clip_circle_markup(i, cx, cy, r));
    lemma_clip_elems_hold(i, n, c, z);
    lemma_occurs_within(clip_elem(i, c, z), clips, head, "</defs>"@ + cells + "</svg>"@);
    assert(w =~= head + clips + ("</defs>"@ + cells + "</svg>"@));
    let img = image_markup(es[i].avatar->0@, i, cx - r, cy - r, z);
    let cell = cell_elem(i, c, z, es[i]);
    assert(avatar_elem(i, c, z, es[i]) =~= img);
    assert(occurs_in(img, cell)) by {
        assert(cell =~= "<g>"@ + img + ("<title>"@ + escape_seq(title_text(es[i])) + "</title>"@
            + "</g>"@));
    }
    lemma_cell_elems_hold(es, i, n, c, z);
    let (p, q) = choose|p: Seq<char>, q: Seq<char>| cells == p + cell + q;
    let (p2, q2) = choose|p2: Seq<char>, q2: Seq<char>| cell == p2 + img + q2;
    assert(cells =~= (p + p2) + img + (q2 + q));
    lemma_occurs_within(img, cells, head + clips + "</defs>"@, "</svg>"@);
    assert(w =~= (head + clips + "</defs>"@) + cells + "</svg>"@);
}

/// A rectangle covering the whole 800 by 533 chart canvas, filled with `colour`.
pub open spec fn canvas_rect(colour: Seq<char>) -> Seq<char> {
    "<rect width="@ + seq!['"'] + "800"@ + seq!['"'] + " height="@ + seq!['"'] + "533"@ + seq!['"']
        + " fill="@ + seq!['"'] + colour + seq!['"'] + "/>"@
}

/// Law: the chart's full-canvas rectangle (800 by 533) is painted with the
/// theme's background colour.
pub proof fn lemma_chart_canvas_background(repo: Seq<char>, t: Theme)
    ensures
        occurs_in(canvas_rect(t.bg@), chart_head(repo, t)),
{
    let rect = canvas_rect(t.bg@);
    let p = "<svg xmlns=\"http://www.w3.org/2000/svg\" viewBox=\"0 0 800 533\" width=\"100%\" height=\"auto\" role=\"img\" aria-label=\"Star history for "@
        + escape_seq(repo) + "\">"@ + style_elem();
    let q = "<defs><linearGradient id=\"g0\" x1=\"0\" y1=\"0\" x2=\"0\" y2=\"1\"><stop offset=\"0%\" stop-color=\""@
        + t.line@ + "\" stop-opacity=\"0.22\"/><stop offset=\"100%\" stop-color=\""@ + t.line@
        + "\" stop-opacity=\"0.02\"/></linearGradient></defs>"@
        + "<rect x=\"90.00\" y=\"24.00\" width=\"12\" height=\"12\" rx=\"3\" fill=\""@ + t.line@
        + "\"/><text x=\"110.00\" y=\"34.00\" font-size=\"14\" fill=\""@ + t.text@ + "\">"@ + escape_seq(repo)
        + "</text>"@;
    assert(rect =~= "<rect width=\"800\" height=\"533\" fill=\""@ + (t.bg@) + "\"/>"@) by {
        reveal_strlit("<rect width=");
        reveal_strlit("800");
        reveal_strlit(" height=");
        reveal_strlit("533");
        reveal_strlit(" fill=");
        reveal_strlit("/>");
        reveal_strlit("<rect width=\"800\" height=\"533\" fill=\"");
        reveal_strlit("\"/>");
    }
    assert(chart_head(repo, t) =~= p + rect + q);
}

proof fn lemma_cell_bounds(i: int, n: int, c: int, z: int)
    requires
        0 <= i < n,
        c >= 1,
        z >= 8,
        wall_extent(c, z) <= u32::MAX,
        wall_extent(wall_rows(n, c), z) <= u32::MAX,
    ensures
        0 <= i % c < c,
        0 <= i / c < wall_rows(n, c),
        z / 2 <= cell_cx(i, c, z) <= u32::MAX,
        z / 2 <= cell_cy(i, c, z) <= u32::MAX,
        (i % c) * (z + GAP) <= u32::MAX,
        (i / c) * (z + GAP) <= u32::MAX,
        z + GAP <= u32::MAX,
{
    assert(c * z >= z) by (nonlinear_arith)
        requires
            c >= 1,
            z >= 0,
    ;
    let col = i % c;
    let row = i / c;
    let rows = wall_rows(n, c);
    assert(0 <= col < c && 0 <= row && row * c <= i) by (nonlinear_arith)
        requires
            i >= 0,
            c >= 1,
            col == i % c,
            row == i / c,
    ;
    assert(row < rows) by (nonlinear_arith)
        requires
            row * c <= i,
            i < n,
            c >= 1,
            rows == (n + c - 1) / c,
            row >= 0,
    ;
    assert(col * (z + 8) <= (c - 1) * (z + 8)) by (nonlinear_arith)
        requires
            0 <= col <= c - 1,
            z >= 0,
    ;
    assert(row * (z + 8) <= (rows - 1) * (z + 8)) by (nonlinear_arith)
        requires
            0 <= row <= rows - 1,
            z >= 0,
    ;
    assert((c - 1) * (z + 8) == (c - 1) * z + (c - 1) * 8) by (nonlinear_arith);
    assert(c * z == (c - 1) * z + z) by (nonlinear_arith);
    assert((rows - 1) * (z + 8) == (rows - 1) * z + (rows - 1) * 8) by (nonlinear_arith);
    assert(rows * z == (rows - 1) * z + z) by (nonlinear_arith);
    assert(col * (z + 8) >= 0 && row * (z + 8) >= 0) by (nonlinear_arith)
        requires
            col >= 0,
            row >= 0,
            z >= 0,
    ;
}

/// Center of cell `i` in a grid of `cols` columns.
fn cell_center(i: u32, cols: u32, size: u32, gap: u32, pad: u32) -> (r: (u32, u32))
    requires
        gap == GAP,
        pad == PAD,
        cols >= 1,
        size >= 8,
        exists|n: int|
            i < n && wall_extent(cols as int, size as int) <= u32::MAX && wall_extent(
                wall_rows(n, cols as int),
                size as int,
            ) <= u32::MAX,
    ensures
        r.0 == cell_cx(i as int, cols as int, size as int),
        r.1 == cell_cy(i as int, cols as int, size as int),
{
    let ghost n = choose|n: int|
        i < n && wall_extent(cols as int, size as int) <= u32::MAX && wall_extent(
            wall_rows(n, cols as int),
            size as int,
        ) <= u32::MAX;
    proof {
        lemma_cell_bounds(i as int, n, cols as int, size as int);
    }
    let (col, row) = (i % cols, i / cols);
    (pad + col * (size + gap) + size / 2, pad + row * (size + gap) + size / 2)
}

/// The placeholder letter of `login`, computed.
fn placeholder_of(login: &str) -> (c: char)
    ensures
        c == placeholder_letter(login@),
{
    let cs = chars_of(login);
    assert(cs@.skip(0) == cs@);
    let mut i: usize = 0;
    while i < cs.len()
        invariant
            i <= cs.len(),
            first_alnum(cs@) == first_alnum(cs@.skip(i as int)),
            cs@ == login@,
        decreases cs.len() - i,
    {
        let c = cs[i];
        assert(cs@.skip(i as int)[0] == c);
        assert(cs@.skip(i as int).drop_first() == cs@.skip(i + 1));
        if ('0' <= c && c <= '9') || ('a' <= c && c <= 'z') || ('A' <= c && c <= 'Z') {
            if 'a' <= c && c <= 'z' {
                let b = (c as u8) - 32;
                return b as char;
            }
            return c;
        }
        i += 1;
    }
    assert(cs@.skip(cs.len() as int).len() == 0);
    '?'
}

/// Appends the clip path of cell `i`.
fn push_clip(s: &mut String, i: u32, cols: u32, size: u32, n: Ghost<int>)
    requires
        cols >= 1,
        size >= 8,
        i < n@,
        wall_extent(cols as int, size as int) <= u32::MAX,
        wall_extent(wall_rows(n@, cols as int), size as int) <= u32::MAX,
    ensures
        final(s)@ == old(s)@ + clip_elem(i as int, cols as int, size as int),
{
    let (cx, cy) = cell_center(i, cols, size, GAP, PAD);
    push_str(s, "<clipPath id=\"c");
    push_dec(s, i as u64);
    push_str(s, "\"><circle cx=\"");
    push_dec(s, cx as u64);
    push_str(s, "\" cy=\"");
    push_dec(s, cy as u64);
    push_str(s, "\" r=\"");
    push_dec(s, (size / 2) as u64);
    push_str(s, "\"/></clipPath>");
}

/// Appends the group of cell `i` for entry `e`.
fn push_cell(s: &mut String, i: u32, e: &WallEntry, cols: u32, size: u32, n: Ghost<int>)
    requires
        cols >= 1,
        size >= 8,
        i < n@,
        wall_extent(cols as int, size as int) <= u32::MAX,
        wall_extent(wall_rows(n@, cols as int), size as int) <= u32::MAX,
        e.avatar is None ==> size * 45 <= u32::MAX,
    ensures
        final(s)@ == old(s)@ + cell_elem(i as int, cols as int, size as int, *e),
{
    let ghost start = s@;
    let (cx, cy) = cell_center(i, cols, size, GAP, PAD);
    let r = size / 2;
    push_str(s, "<g>");
    match &e.avatar {
        Some(uri) => {
            push_str(s, "<image href=\"");
            push_str(s, uri.as_str());
            push_str(s, "\" x=\"");
            push_dec(s, (cx - r) as u64);
            push_str(s, "\" y=\"");
            push_dec(s, (cy - r) as u64);
            push_str(s, "\" width=\"");
            push_dec(s, size as u64);
            push_str(s, "\" height=\"");
            push_dec(s, size as u64);
            push_str(s, "\" preserveAspectRatio=\"xMidYMid slice\" clip-path=\"url(#c");
            push_dec(s, i as u64);
            push_str(s, ")\"/>");
        },
        None => {
            let letter = placeholder_of(e.login.as_str());
            push_str(s, "<circle cx=\"");
            push_dec(s, cx as u64);
            push_str(s, "\" cy=\"");
            push_dec(s, cy as u64);
            push_str(s, "\" r=\"");
            push_dec(s, r as u64);
            push_str(s, "\" fill=\"#9ea7b3\"/><text x=\"");
            push_dec(s, cx as u64);
            push_str(s, "\" y=\"");
            push_dec(s, cy as u64);
            push_str(s, "\" font-size=\"");
            push_dec(s, (size * 45 / 100) as u64);
            push_str(
                s,
                "\" font-weight=\"bold\" text-anchor=\"middle\" dominant-baseline=\"central\" fill=\"#ffffff\">",
            );
            push_char(s, letter);
            push_str(s, "</text>");
        },
    }
    assert(s@ == start + "<g>"@ + avatar_elem(i as int, cols as int, size as int, *e));
    let mut title = String::from_str("@");
    title.append(e.login.as_str());
    title.append(" (");
    push_dec(&mut title, e.contributions);
    title.append(" contributions)");
    let tcs = chars_of(title.as_str());
    push_str(s, "<title>");
    push_escaped(s, tcs.as_slice());
    push_str(s, "</title>");
    push_str(s, "</g>");
}

/// Width and height of a wall of `n` cells.
fn wall_dims(n: u32, cols: u32, size: u32) -> (r: (u32, u32))
    requires
        n >= 1,
        cols >= 1,
        size >= 8,
        wall_extent(cols as int, size as int) <= u32::MAX,
        wall_extent(wall_rows(n as int, cols as int), size as int) <= u32::MAX,
    ensures
        r.0 == wall_extent(cols as int, size as int),
        r.1 == wall_extent(wall_rows(n as int, cols as int), size as int),
{
    let ghost gn = n as int;
    assert(n / cols + (if n % cols == 0 {
        0int
    } else {
        1int
    }) <= n) by (nonlinear_arith)
        requires
            cols >= 1,
            n >= 1,
    ;
    let rows = n / cols + if n % cols == 0 {
        0
    } else {
        1
    };
    proof {
        assert(rows == wall_rows(gn, cols as int)) by (nonlinear_arith)
            requires
                cols >= 1,
                rows == n / cols + if n % cols == 0 {
                    0int
                } else {
                    1int
                },
                gn == n,
        ;
        assert(rows >= 1) by (nonlinear_arith)
            requires
                cols >= 1,
                gn >= 1,
                rows == (gn + cols - 1) / (cols as int),
        ;
        assert(cols * size >= 0 && rows * size >= 0) by (nonlinear_arith)
            requires
                cols >= 1,
                rows >= 1,
                size >= 8,
        ;
    }
    let w = 2 * PAD + cols * size + (cols - 1) * GAP;
    let h = 2 * PAD + rows * size + (rows - 1) * GAP;
    (w, h)
}

/// Appends the opening tag of a `w` by `h` wall and its style element.
fn push_wall_open(s: &mut String, w: u32, h: u32)
    ensures
        final(s)@ == old(s)@ + wall_open(w as int, h as int) + style_elem(),
{
    push_str(s, "<svg xmlns=\"http://www.w3.org/2000/svg\" viewBox=\"0 0 ");
    push_dec(s, w as u64);
    push_str(s, " ");
    push_dec(s, h as u64);
    push_str(s, "\" width=\"");
    push_dec(s, w as u64);
    push_str(s, "\" height=\"");
    push_dec(s, h as u64);
    push_str(
        s,
        "\" style=\"max-width:100%;height:auto\" role=\"img\" aria-label=\"Contributors\">",
    );
    push_str(s, "<style>text{font-family:");
    push_str(s, FONT);
    push_str(s, ";}</style>");
}

/// Render the contributors avatar wall: a `cols`-column grid of circular
/// avatars (placeholders where an avatar is missing) in entry order, each with
/// its `@login (N contributions)` tooltip. Transparent background; intrinsic
/// size with shrink-to-fit.
pub fn render_contributor_wall(entries: &[WallEntry], opts: &WallOptions) -> (r: String)
    requires
        wall_fits(entries@, opts.cols, opts.avatar_size),
    ensures
        r@ == wall_svg(entries@, opts.cols, opts.avatar_size),
{
    let cols = if opts.cols >= 1 {
        opts.cols
    } else {
        1
    };
    let size = if opts.avatar_size >= 8 {
        opts.avatar_size
    } else {
        8
    };
    if entries.len() == 0 {
        return String::from_str(EMPTY_WALL);
    }
    let n = entries.len() as u32;
    let (w, h) = wall_dims(n, cols, size);
    let mut s = String::new();
    push_wall_open(&mut s, w, h);
    push_str(&mut s, "<defs>");
    let ghost head = s@;
    let mut i: u32 = 0;
    while i < n
        invariant
            i <= n,
            n == entries@.len(),
            cols >= 1,
            size >= 8,
            wall_extent(cols as int, size as int) <= u32::MAX,
            wall_extent(wall_rows(n as int, cols as int), size as int) <= u32::MAX,
            s@ == head + clip_elems(i as int, cols as int, size as int),
        decreases n - i,
    {
        push_clip(&mut s, i, cols, size, Ghost(n as int));
        i += 1;
    }
    push_str(&mut s, "</defs>");
    let ghost mid = s@;
    let mut j: usize = 0;
    while j < entries.len()
        invariant
            j <= entries.len(),
            n == entries@.len(),
            cols >= 1,
            size >= 8,
            wall_extent(cols as int, size as int) <= u32::MAX,
            wall_extent(wall_rows(n as int, cols as int), size as int) <= u32::MAX,
            forall|k: int|
                0 <= k < entries@.len() && entries@[k].avatar is None ==> size * 45 <= u32::MAX,
            s@ == mid + cell_elems(entries@, j as int, cols as int, size as int),
        decreases entries.len() - j,
    {
        push_cell(&mut s, j as u32, &entries[j], cols, size, Ghost(n as int));
        j += 1;
    }
    push_str(&mut s, "</svg>");
    s
}

/// The time-step ladder for x-axis ticks, in seconds: day, week, ~month,
/// ~quarter, ~half year, year, then multi-year steps.
pub const LADDER: [i64; 11] = [
    86_400,
    604_800,
    2_592_000,
    7_884_000,
    15_768_000,
    31_536_000,
    63_072_000,
    157_680_000,
    315_360_000,
    630_720_000,
    1_576_800_000,
];

/// The first ladder step from position `k` on that puts at most `target`
/// steps in `span`, or the largest step when none does.
pub open spec fn pick_step(span: int, target: int, k: int) -> int
    decreases 10 - k,
{
    if k >= 10 || k < 0 {
        LADDER@[10] as int
    } else if span / (LADDER@[k] as int) <= target {
        LADDER@[k] as int
    } else {
        pick_step(span, target, k + 1)
    }
}

/// The tick step for the span from `t0` to `t1` (negative spans count as 0).
pub open spec fn tick_step(t0: int, t1: int, target: int) -> int {
    pick_step(if t1 - t0 > 0 {
        t1 - t0
    } else {
        0
    }, target, 0)
}

/// The strftime pattern for tick labels at a given step: month and day below a
/// month, month and year below a year, else the year.
pub open spec fn tick_format(step: int) -> Seq<char> {
    if step < 2_592_000 {
        "%b %d"@
    } else if step < 31_536_000 {
        "%b %Y"@
    } else {
        "%Y"@
    }
}

/// Integer division rounding toward zero (as Rust's `/` on signed integers).
pub open spec fn div_trunc(a: int, b: int) -> int {
    if a >= 0 {
        a / b
    } else {
        -((-a) / b)
    }
}

/// The first candidate tick, `(t0 + step - 1) / step * step` with Rust's
/// division toward zero: `t0` rounded up to a multiple of `step` when
/// `t0 + step - 1` is not negative, rounded toward zero otherwise (so a span
/// that starts before 1970 gets its first tick at 0 or later).
pub open spec fn first_tick(t0: int, step: int) -> int {
    div_trunc(t0 + step - 1, step) * step
}

/// The ticks `t, t + step, ...` up to `t1`, labelled, keeping a tick only when
/// its label differs from the previous candidate's (`prev`).
pub open spec fn ticks_from(t: int, t1: int, step: int, fmt: Seq<char>, prev: Option<Seq<char>>) -> Seq<
    (i64, Seq<char>),
>
    decreases t1 - t + step,
    when step > 0
{
    if t > t1 {
        seq![]
    } else {
        let label = utc_format(t as i64, fmt);
        let rest = ticks_from(t + step, t1, step, fmt, Some(label));
        if prev == Some(label) {
            rest
        } else {
            seq![(t as i64, label)] + rest
        }
    }
}

/// The x-axis ticks of a chart spanning `t0..t1`: multiples of the ladder step
/// from `t0` on, labelled by UTC date, consecutive duplicate labels dropped.
pub open spec fn x_ticks_spec(t0: int, t1: int, target: int) -> Seq<(i64, Seq<char>)> {
    let step = tick_step(t0, t1, target);
    ticks_from(first_tick(t0, step), t1, step, tick_format(step), None)
}

/// The tick arithmetic stays within `i64` for `t0..t1`.
pub open spec fn ticks_fit(t0: int, t1: int, target: int) -> bool {
    let step = tick_step(t0, t1, target);
    let first = first_tick(t0, step);
    &&& i64::MIN <= t1 - t0 <= i64::MAX
    &&& t0 + step <= i64::MAX
    &&& first <= t1 ==> first + ((t1 - first) / step + 1) * step <= i64::MAX
}

proof fn lemma_div_trunc_mul(a: int, b: int)
    requires
        b >= 1,
    ensures
        a >= 0 ==> 0 <= div_trunc(a, b) * b <= a,
        a < 0 ==> a <= div_trunc(a, b) * b <= 0,
{
    if a >= 0 {
        assert(0 <= (a / b) * b <= a) by (nonlinear_arith)
            requires
                a >= 0,
                b >= 1,
        ;
    } else {
        let m = -a;
        assert(0 <= (m / b) * b <= m) by (nonlinear_arith)
            requires
                m > 0,
                b >= 1,
        ;
        assert(div_trunc(a, b) * b == -((m / b) * b)) by (nonlinear_arith)
            requires
                m == -a,
                a < 0,
                div_trunc(a, b) == -(m / b),
        ;
    }
}

proof fn lemma_pick_step_on_ladder(span: int, target: int, k: int)
    ensures
        86_400 <= pick_step(span, target, k) <= 1_576_800_000,
    decreases 10 - k,
{
    if !(k >= 10 || k < 0) && !(span / (LADDER@[k] as int) <= target) {
        lemma_pick_step_on_ladder(span, target, k + 1);
    }
}

/// Adaptive x-axis ticks: up to about `target` ticks, snapped to a time-step
/// ladder, labels deduped. Returns `(ts, label)` pairs.
pub fn x_ticks(t0: i64, t1: i64, target: i64) -> (r: Vec<(i64, String)>)
    requires
        ticks_fit(t0 as int, t1 as int, target as int),
    ensures
        r@.map_values(|p: (i64, String)| (p.0, p.1@)) == x_ticks_spec(t0 as int, t1 as int, target as int),
{
    let diff = t1 - t0;
    let span = if diff > 0 {
        diff
    } else {
        0
    };
    let mut k: usize = 0;
    let mut step: i64 = LADDER[10];
    while k < 11
        invariant
            k <= 11,
            span >= 0,
            span as int == (if t1 - t0 > 0 {
                t1 - t0
            } else {
                0
            }),
            pick_step(span as int, target as int, 0) == if k < 11 {
                pick_step(span as int, target as int, k as int)
            } else {
                step as int
            },
        decreases 11 - k,
    {
        let s = LADDER[k];
        assert(s == LADDER@[k as int]);
        assert(s > 0);
        if k == 10 || span / s <= target {
            step = s;
            k = 11;
        } else {
            k += 1;
        }
    }
    proof {
        lemma_pick_step_on_ladder(span as int, target as int, 0);
    }
    let fmt = if step < 2_592_000 {
        "%b %d"
    } else if step < 31_536_000 {
        "%b %Y"
    } else {
        "%Y"
    };
    let ghost gstep = step as int;
    let ghost gfmt = fmt@;
    let ghost first = first_tick(t0 as int, gstep);
    let ghost whole = ticks_from(first, t1 as int, gstep, gfmt, None);
    let mut out: Vec<(i64, String)> = Vec::new();
    let t_num = t0 + step - 1;
    proof {
        lemma_div_trunc_mul(t_num as int, gstep);
    }
    let mut t = t_num / step * step;
    assert(t == first);
    let ghost mut prev: Option<Seq<char>> = None;
    let ghost mut steps: int = 0;
    while t <= t1
        invariant
            gstep == step,
            step >= 1,
            gfmt == fmt@,
            is_label_pattern(gfmt),
            whole == ticks_from(first, t1 as int, gstep, gfmt, None),
            t == first + steps * gstep,
            steps >= 0,
            first <= t1 ==> first + ((t1 - first) / gstep + 1) * gstep <= i64::MAX,
            out@.map_values(|p: (i64, String)| (p.0, p.1@)) + ticks_from(t as int, t1 as int, gstep, gfmt, prev)
                == whole,
            prev is None ==> out@.len() == 0,
            prev matches Some(l) ==> out@.len() > 0 && out@.last().1@ == l,
        decreases t1 - t + step,
    {
        let label = format_utc(t, fmt);
        let ghost l = label@;
        let ghost rest = ticks_from(t + gstep, t1 as int, gstep, gfmt, Some(l));
        assert(ticks_from(t as int, t1 as int, gstep, gfmt, prev) == if prev == Some(l) {
            rest
        } else {
            seq![(t, l)] + rest
        });
        let keep = if out.len() == 0 {
            true
        } else {
            !str_eq(out[out.len() - 1].1.as_str(), label.as_str())
        };
        let ghost before = out@.map_values(|p: (i64, String)| (p.0, p.1@));
        if keep {
            out.push((t, label));
            assert(out@.map_values(|p: (i64, String)| (p.0, p.1@)) == before.push((t, l)));
        }
        proof {
            assert(steps * gstep <= t1 - first) by (nonlinear_arith)
                requires
                    t == first + steps * gstep,
                    t <= t1,
            ;
            assert((steps + 1) * gstep <= ((t1 - first) / gstep + 1) * gstep) by (nonlinear_arith)
                requires
                    steps * gstep <= t1 - first,
                    gstep >= 1,
                    steps >= 0,
            ;
            assert((steps + 1) * gstep == steps * gstep + gstep) by (nonlinear_arith);
            prev = Some(l);
            steps = steps + 1;
        }
        t = t + step;
    }
    out
}

proof fn lemma_ticks_from_labels(t: int, t1: int, step: int, fmt: Seq<char>, prev: Option<Seq<char>>)
    requires
        step > 0,
    ensures
        forall|i: int|
            0 <= i < ticks_from(t, t1, step, fmt, prev).len() ==> #[trigger] ticks_from(
                t,
                t1,
                step,
                fmt,
                prev,
            )[i].1 == utc_format(ticks_from(t, t1, step, fmt, prev)[i].0, fmt),
    decreases t1 - t + step,
{
    if t <= t1 {
        let label = utc_format(t as i64, fmt);
        lemma_ticks_from_labels(t + step, t1, step, fmt, Some(label));
        let rest = ticks_from(t + step, t1, step, fmt, Some(label));
        let all = ticks_from(t, t1, step, fmt, prev);
        if prev != Some(label) {
            assert forall|i: int| 0 <= i < all.len() implies #[trigger] all[i].1 == utc_format(
                all[i].0,
                fmt,
            ) by {
                if i > 0 {
                    assert(all[i] == rest[i - 1]);
                }
            }
        }
    }
}

/// Law: every x-axis tick is labelled with the UTC date of its own timestamp
/// at the granularity of the tick step: the year (`%Y`) for steps of a year
/// (31 536 000 s) or more, month and year (`%b %Y`) for steps of a month
/// (2 592 000 s) up to a year, month and day (`%b %d`) below a month.
pub proof fn lemma_x_tick_labels(t0: int, t1: int, target: int)
    ensures
        forall|i: int|
            0 <= i < x_ticks_spec(t0, t1, target).len() ==> #[trigger] x_ticks_spec(t0, t1, target)[i].1
                == utc_format(
                x_ticks_spec(t0, t1, target)[i].0,
                if tick_step(t0, t1, target) >= 31_536_000 {
                    "%Y"@
                } else if tick_step(t0, t1, target) >= 2_592_000 {
                    "%b %Y"@
                } else {
                    "%b %d"@
                },
            ),
{
    let step = tick_step(t0, t1, target);
    lemma_pick_step_on_ladder(if t1 - t0 > 0 {
        t1 - t0
    } else {
        0
    }, target, 0);
    lemma_ticks_from_labels(first_tick(t0, step), t1, step, tick_format(step), None);
}

/// Law: consecutive x-axis ticks never repeat a label.
pub proof fn lemma_x_ticks_labels_distinct(t0: int, t1: int, target: int)
    ensures
        forall|i: int|
            0 <= i < x_ticks_spec(t0, t1, target).len() - 1 ==> #[trigger] x_ticks_spec(t0, t1, target)[i].1
                != x_ticks_spec(t0, t1, target)[i + 1].1,
{
    let step = tick_step(t0, t1, target);
    lemma_pick_step_on_ladder(if t1 - t0 > 0 {
        t1 - t0
    } else {
        0
    }, target, 0);
    lemma_ticks_from_distinct(first_tick(t0, step), t1, step, tick_format(step), None);
}

proof fn lemma_ticks_from_distinct(
    t: int,
    t1: int,
    step: int,
    fmt: Seq<char>,
    prev: Option<Seq<char>>,
)
    requires
        step > 0,
    ensures
        ticks_from(t, t1, step, fmt, prev).len() > 0 && prev is Some ==> ticks_from(
            t,
            t1,
            step,
            fmt,
            prev,
        )[0].1 != prev->Some_0,
        forall|i: int|
            0 <= i < ticks_from(t, t1, step, fmt, prev).len() - 1 ==> #[trigger] ticks_from(
                t,
                t1,
                step,
                fmt,
                prev,
            )[i].1 != ticks_from(t, t1, step, fmt, prev)[i + 1].1,
    decreases t1 - t + step,
{
    if t <= t1 {
        let label = utc_format(t as i64, fmt);
        lemma_ticks_from_distinct(t + step, t1, step, fmt, Some(label));
        let rest = ticks_from(t + step, t1, step, fmt, Some(label));
        let all = ticks_from(t, t1, step, fmt, prev);
        if prev != Some(label) {
            assert(all == seq![(t as i64, label)] + rest);
            assert forall|i: int| 0 <= i < all.len() - 1 implies #[trigger] all[i].1 != all[i
                + 1].1 by {
                if i > 0 {
                    assert(all[i] == rest[i - 1]);
                    assert(all[i + 1] == rest[i]);
                } else {
                    assert(all[0].1 == label);
                    assert(all[1] == rest[0]);
                    assert(rest.len() > 0);
                    assert(rest[0].1 != label);
                }
            }
        }
    }
}

/// The fixed opening of a star-history chart: root element labelled with the
/// repository, font style, background, area gradient, and the legend (color
/// swatch + repository name).
pub open spec fn chart_head(repo: Seq<char>, t: Theme) -> Seq<char> {
    "<svg xmlns=\"http://www.w3.org/2000/svg\" viewBox=\"0 0 800 533\" width=\"100%\" height=\"auto\" role=\"img\" aria-label=\"Star history for "@
        + escape_seq(repo) + "\">"@ + style_elem() + "<rect width=\"800\" height=\"533\" fill=\""@ + t.bg@
        + "\"/>"@
        + "<defs><linearGradient id=\"g0\" x1=\"0\" y1=\"0\" x2=\"0\" y2=\"1\"><stop offset=\"0%\" stop-color=\""@
        + t.line@ + "\" stop-opacity=\"0.22\"/><stop offset=\"100%\" stop-color=\""@ + t.line@
        + "\" stop-opacity=\"0.02\"/></linearGradient></defs>"@
        + "<rect x=\"90.00\" y=\"24.00\" width=\"12\" height=\"12\" rx=\"3\" fill=\""@ + t.line@
        + "\"/><text x=\"110.00\" y=\"34.00\" font-size=\"14\" fill=\""@ + t.text@ + "\">"@ + escape_seq(repo)
        + "</text>"@
}

/// The empty-state message that closes a chart without stars.
pub open spec fn no_stars_tail(t: Theme) -> Seq<char> {
    "<text x=\"400.00\" y=\"266.50\" font-size=\"16\" text-anchor=\"middle\" fill=\""@ + t.subtext@
        + "\">No stars yet</text></svg>"@
}

/// The fixed opening of a star-history chart for `repo` in `theme`.
pub fn star_chart_head(repo: &str, theme: &Theme) -> (r: String)
    ensures
        r@ == chart_head(repo@, *theme),
{
    let cs = chars_of(repo);
    let mut s = String::new();
    push_str(
        &mut s,
        "<svg xmlns=\"http://www.w3.org/2000/svg\" viewBox=\"0 0 800 533\" width=\"100%\" height=\"auto\" role=\"img\" aria-label=\"Star history for ",
    );
    push_escaped(&mut s, cs.as_slice());
    push_str(&mut s, "\">");
    push_str(&mut s, "<style>text{font-family:");
    push_str(&mut s, FONT);
    push_str(&mut s, ";}</style>");
    push_str(&mut s, "<rect width=\"800\" height=\"533\" fill=\"");
    push_str(&mut s, theme.bg);
    push_str(&mut s, "\"/>");
    push_str(
        &mut s,
        "<defs><linearGradient id=\"g0\" x1=\"0\" y1=\"0\" x2=\"0\" y2=\"1\"><stop offset=\"0%\" stop-color=\"",
    );
    push_str(&mut s, theme.line);
    push_str(&mut s, "\" stop-opacity=\"0.22\"/><stop offset=\"100%\" stop-color=\"");
    push_str(&mut s, theme.line);
    push_str(&mut s, "\" stop-opacity=\"0.02\"/></linearGradient></defs>");
    push_str(
        &mut s,
        "<rect x=\"90.00\" y=\"24.00\" width=\"12\" height=\"12\" rx=\"3\" fill=\"",
    );
    push_str(&mut s, theme.line);
    push_str(&mut s, "\"/><text x=\"110.00\" y=\"34.00\" font-size=\"14\" fill=\"");
    push_str(&mut s, theme.text);
    push_str(&mut s, "\">");
    push_escaped(&mut s, cs.as_slice());
    push_str(&mut s, "</text>");
    s
}

/// The empty-state tail of a chart without stars.
pub fn star_chart_no_stars(theme: &Theme) -> (r: String)
    ensures
        r@ == no_stars_tail(*theme),
{
    let mut s = String::from_str(
        "<text x=\"400.00\" y=\"266.50\" font-size=\"16\" text-anchor=\"middle\" fill=\"",
    );
    push_str(&mut s, theme.subtext);
    push_str(&mut s, "\">No stars yet</text></svg>");
    s
}

/// `a / b` rounded to the nearest integer, ties to even (`b > 0`, `a >= 0`).
pub open spec fn div_round_even(a: int, b: int) -> int {
    let q = a / b;
    let r = a % b;
    if 2 * r > b || (2 * r == b && q % 2 == 1) {
        q + 1
    } else {
        q
    }
}

/// How often `q` doubles before exceeding `p`: `floor(log2(p / q))` for `p >= q > 0`.
pub open spec fn doublings(p: int, q: int) -> nat
    decreases p - q,
    when q > 0
{
    if p < 2 * q {
        0
    } else {
        1 + doublings(p, 2 * q)
    }
}

/// Number of binary digits of `n`.
pub open spec fn bit_len(n: nat) -> nat
    decreases n,
{
    if n == 0 {
        0
    } else {
        1 + bit_len(n / 2)
    }
}

/// `n` as the nearest binary64 value (53 significant bits, ties to even).
pub open spec fn nearest_f64_int(n: nat) -> int {
    if bit_len(n) <= 53 {
        n as int
    } else {
        let k = (bit_len(n) - 53) as nat;
        div_round_even(n as int, pow2(k) as int) * pow2(k)
    }
}

/// `p / q` rounded to binary64 and then to tenths (both ties to even), as an
/// integer count of tenths; for `1 <= p / q < 2^52`. The binary64 value is
/// `m / 2^s` with `s = 52 - floor(log2(p / q))` and `m` the rounded significand.
pub open spec fn quotient_tenths(p: int, q: int) -> int {
    let s = (52 - doublings(p, q)) as nat;
    let m = div_round_even(p * pow2(s), q);
    div_round_even(m * 10, pow2(s) as int)
}

/// A count of tenths printed with one decimal, a trailing `.0` dropped, and the
/// unit suffix appended.
pub open spec fn tenths_text(t: int, suffix: Seq<char>) -> Seq<char> {
    dec((t / 10) as nat) + (if t % 10 == 0 {
        Seq::<char>::empty()
    } else {
        seq!['.', digit_char((t % 10) as nat)]
    }) + suffix
}

/// Compact count text: plain below 1000, else thousands (`K`) or millions
/// (`M`) with one decimal, computed as `n / 10^3` (or `n / 10^6`) in binary64
/// and printed rounded to one decimal (`999`, `1K`, `12.5K`, `1M`, `1.5M`).
pub open spec fn count_text(n: u64) -> Seq<char> {
    if n >= 1_000_000 {
        tenths_text(quotient_tenths(nearest_f64_int(n as nat), 1_000_000), "M"@)
    } else if n >= 1_000 {
        tenths_text(quotient_tenths(n as int, 1_000), "K"@)
    } else {
        dec(n as nat)
    }
}

fn div_round_even_exec(a: u128, b: u128) -> (r: u128)
    requires
        b > 0,
    ensures
        r == div_round_even(a as int, b as int),
{
    let q = a / b;
    let r = a % b;
    proof {
        assert(q * b + r == a && 0 <= r < b) by (nonlinear_arith)
            requires
                b > 0,
                q == a / b,
                r == a % b,
        ;
    }
    if r > b - r || (r == b - r && q % 2 == 1) {
        proof {
            assert(q < u128::MAX) by (nonlinear_arith)
                requires
                    q * b + r == a,
                    r > 0,
                    b >= 2,
                    a <= u128::MAX,
            ;
        }
        q + 1
    } else {
        q
    }
}

fn pow2_exec(k: u32) -> (r: u128)
    requires
        k <= 64,
    ensures
        r == pow2(k as nat),
{
    proof {
        lemma_pow2_values();
        lemma_pow2_mono(0, 64);
    }
    let mut r: u128 = 1;
    let mut i: u32 = 0;
    while i < k
        invariant
            i <= k <= 64,
            r == pow2(i as nat),
            pow2(64) == 0x1_0000_0000_0000_0000,
        decreases k - i,
    {
        proof {
            lemma_pow2_mono(i as nat + 1, 64);
            assert(pow2(i as nat + 1) == 2 * pow2(i as nat));
        }
        r = r * 2;
        i += 1;
    }
    r
}

proof fn lemma_pow2_mono(a: nat, b: nat)
    requires
        a <= b,
    ensures
        pow2(a) <= pow2(b),
    decreases b,
{
    if a < b {
        lemma_pow2_mono(a, (b - 1) as nat);
        lemma_pow2_pos((b - 1) as nat);
    }
}

proof fn lemma_doublings_bound(p: int, q: int, k: nat)
    requires
        q > 0,
        p >= q,
        p < q * pow2(k),
    ensures
        doublings(p, q) < k,
    decreases k,
{
    assert(k > 0) by {
        if k == 0 {
            assert(pow2(0) == 1);
            assert(q * pow2(0) == q) by (nonlinear_arith)
                requires
                    pow2(0) == 1,
            ;
        }
    }
    if p >= 2 * q {
        assert(q * pow2(k) == (2 * q) * pow2((k - 1) as nat)) by (nonlinear_arith)
            requires
                pow2(k) == 2 * pow2((k - 1) as nat),
        ;
        lemma_doublings_bound(p, 2 * q, (k - 1) as nat);
    }
}

fn doublings_exec(p: u128, q: u128) -> (e: u32)
    requires
        q > 0,
        q <= p,
        p < q * pow2(60),
    ensures
        e == doublings(p as int, q as int),
        e < 60,
{
    proof {
        lemma_doublings_bound(p as int, q as int, 60);
    }
    let mut e: u32 = 0;
    let mut qq: u128 = q;
    assert(q * pow2(0) == q) by (nonlinear_arith)
        requires
            pow2(0) == 1,
    ;
    while qq <= p / 2
        invariant
            q > 0,
            q <= qq <= p,
            qq == q * pow2(e as nat),
            doublings(p as int, q as int) == e + doublings(p as int, qq as int),
            doublings(p as int, q as int) < 60,
        decreases p - qq,
    {
        proof {
            lemma_pow2_pos(e as nat);
            assert(qq >= 1) by (nonlinear_arith)
                requires
                    qq == q * pow2(e as nat),
                    q >= 1,
                    pow2(e as nat) >= 1,
            ;
            assert(2 * qq <= p);
            assert(q * pow2(e as nat + 1) == 2 * qq) by (nonlinear_arith)
                requires
                    qq == q * pow2(e as nat),
                    pow2(e as nat + 1) == 2 * pow2(e as nat),
            ;
        }
        qq = qq * 2;
        e = e + 1;
    }
    e
}

fn bit_len_exec(n: u64) -> (b: u32)
    ensures
        b == bit_len(n as nat),
        b <= 64,
{
    proof {
        lemma_u64_bit_len(n);
    }
    let mut x = n;
    let mut b: u32 = 0;
    while x > 0
        invariant
            bit_len(n as nat) == b + bit_len(x as nat),
            b + bit_len(x as nat) <= 64,
        decreases x,
    {
        x = x / 2;
        b = b + 1;
    }
    b
}

proof fn lemma_bit_len_bounds(n: nat)
    ensures
        n < pow2(bit_len(n)),
        n > 0 ==> pow2((bit_len(n) - 1) as nat) <= n,
    decreases n,
{
    if n > 0 {
        lemma_bit_len_bounds(n / 2);
    }
}

proof fn lemma_u64_bit_len(n: u64)
    ensures
        bit_len(n as nat) <= 64,
{
    lemma_bit_len_bounds(n as nat);
    if bit_len(n as nat) > 64 {
        lemma_pow2_mono(64, (bit_len(n as nat) - 1) as nat);
        lemma_pow2_values();
    }
}

fn nearest_f64_exec(n: u64) -> (r: u128)
    ensures
        r == nearest_f64_int(n as nat),
        n >= 1_000_000 ==> r >= 1_000_000,
        r <= 0x1_0000_0000_0000_0800,
{
    let b = bit_len_exec(n);
    if b <= 53 {
        return n as u128;
    }
    let k = b - 53;
    let pk = pow2_exec(k);
    proof {
        lemma_pow2_pos(k as nat);
    }
    let q = div_round_even_exec(n as u128, pk);
    proof {
        lemma_bit_len_bounds(n as nat);
        assert(pow2((b - 1) as nat) == pow2(52) * pow2(k as nat)) by {
            lemma_pow2_add(52, k as nat);
        }
        lemma_pow2_values();
        lemma_pow2_mono(k as nat, 11);
        let fl = (n as int) / (pk as int);
        assert(fl * pk <= n && n < (fl + 1) * pk) by (nonlinear_arith)
            requires
                pk >= 1,
                fl == (n as int) / (pk as int),
        ;
        assert(fl >= pow2(52)) by (nonlinear_arith)
            requires
                pk >= 1,
                fl * pk <= n,
                n < (fl + 1) * pk,
                pow2(52) * pk <= n,
        ;
        assert(q * pk >= 1_000_000 && q * pk <= 0x1_0000_0000_0000_0800) by (nonlinear_arith)
            requires
                fl <= q <= fl + 1,
                fl >= 0x10_0000_0000_0000,
                1 <= pk <= 2048,
                fl * pk <= n,
                n <= 0xffff_ffff_ffff_ffff,
        ;
    }
    q * pk
}

proof fn lemma_pow2_values()
    ensures
        pow2(11) == 2048,
        pow2(52) == 0x10_0000_0000_0000,
        pow2(64) == 0x1_0000_0000_0000_0000,
{
    reveal_with_fuel(pow2, 65);
}

proof fn lemma_pow2_add(a: nat, b: nat)
    ensures
        pow2(a + b) == pow2(a) * pow2(b),
    decreases a,
{
    if a > 0 {
        lemma_pow2_add((a - 1) as nat, b);
        assert(pow2(a + b) == 2 * pow2((a - 1 + b) as nat));
        assert(pow2(a) == 2 * pow2((a - 1) as nat));
        assert(pow2((a - 1 + b) as nat) == pow2((a - 1) as nat) * pow2(b));
        assert(2 * (pow2((a - 1) as nat) * pow2(b)) == (2 * pow2((a - 1) as nat)) * pow2(b)) by (nonlinear_arith);
    } else {
        assert(pow2(0) == 1);
        assert(1 * pow2(b) == pow2(b));
    }
}

fn quotient_tenths_exec(p: u128, q: u128) -> (t: u128)
    requires
        q > 0,
        q <= p,
        p <= 0x1_0000_0000_0000_1000,
        p < q * pow2(52),
    ensures
        t == quotient_tenths(p as int, q as int),
{
    proof {
        assert(pow2(52) <= pow2(60)) by {
            lemma_pow2_mono(52, 60);
        }
        assert(q * pow2(52) <= q * pow2(60)) by (nonlinear_arith)
            requires
                pow2(52) <= pow2(60),
                q > 0,
        ;
        lemma_doublings_bound(p as int, q as int, 52);
    }
    let e = doublings_exec(p, q);
    let s = 52 - e;
    let ps = pow2_exec(s);
    proof {
        lemma_pow2_pos(s as nat);
        lemma_pow2_mono(s as nat, 52);
        lemma_pow2_values();
        assert(p * ps <= 0x1_0000_0000_0000_1000 * 0x10_0000_0000_0000) by (nonlinear_arith)
            requires
                p <= 0x1_0000_0000_0000_1000,
                ps <= 0x10_0000_0000_0000,
        ;
    }
    let m = div_round_even_exec(p * ps, q);
    proof {
        let fl = (p * ps) as int / q as int;
        assert(fl <= p * ps) by (nonlinear_arith)
            requires
                q >= 1,
                fl == (p * ps) as int / q as int,
                p * ps >= 0,
        ;
        assert(m * 10 <= (0x1_0000_0000_0000_1000 * 0x10_0000_0000_0000 + 1) * 10);
    }
    div_round_even_exec(m * 10, ps)
}

/// Appends a count of tenths as text with its unit suffix.
fn push_tenths(s: &mut String, t: u128, suffix: &str)
    ensures
        final(s)@ == old(s)@ + tenths_text(t as int, suffix@),
{
    push_dec_u128(s, t / 10);
    if t % 10 != 0 {
        push_char(s, '.');
        push_char(s, digit((t % 10) as u64));
    }
    push_str(s, suffix);
}

/// Compact count formatting: `999`, `1K`, `12.5K`, `1M`, `1.5M`.
pub fn format_count(n: u64) -> (r: String)
    ensures
        r@ == count_text(n),
{
    let mut s = String::new();
    if n >= 1_000_000 {
        let p = nearest_f64_exec(n);
        proof {
            lemma_pow2_values();
        }
        let t = quotient_tenths_exec(p, 1_000_000);
        push_tenths(&mut s, t, "M");
    } else if n >= 1_000 {
        proof {
            lemma_pow2_values();
        }
        let t = quotient_tenths_exec(n as u128, 1_000);
        push_tenths(&mut s, t, "K");
    } else {
        push_dec(&mut s, n);
    }
    s
}

} // verus!
