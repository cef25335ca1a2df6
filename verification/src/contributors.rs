//! Contributors wall data: which contributors make the wall, how their
//! avatars are requested and embedded, and when the paginated listing stops.
//! Wall order is the API order (contributions descending).

use base64::Engine as _;
use vstd::prelude::*;

use image::ImageEncoder;

use crate::github::Contributor;
use crate::text::{dec, push_dec};
use crate::ScopeError;

verus! {

/// The contributors API never returns beyond the first 500.
pub const API_MAX: usize = 500;
/// Page size of the contributors listing.
pub const PAGE_SIZE: usize = 100;

/// One wall cell: contributor identity + avatar payload (`None` → placeholder).
#[derive(Debug, Clone)]
pub struct WallEntry {
    pub login: String,
    pub contributions: u64,
    /// `data:<mime>;base64,...` URI, or `None` for the placeholder.
    pub avatar: Option<String>,
}

/// The wall size actually requested: `max` clamped to the API ceiling, and
/// whether clamping happened (the caller notes it on stderr).
pub fn clamp_max(max: usize) -> (r: (usize, bool))
    ensures
        r.1 == (max > API_MAX),
        r.0 == if max > API_MAX {
            API_MAX
        } else {
            max
        },
{
    if max > API_MAX {
        (API_MAX, true)
    } else {
        (max, false)
    }
}

/// The paginated walk over the contributors listing: everything received so
/// far, the next page number, the wall size, and whether the listing ended.
#[derive(Debug)]
pub struct WallPager {
    pub contributors: Vec<Contributor>,
    pub page: u32,
    pub max: usize,
    pub done: bool,
}

impl WallPager {
    /// A walk that starts at page 1.
    pub fn new(max: usize) -> (r: Self)
        ensures
            r.contributors@.len() == 0,
            r.page == 1,
            r.max == max,
            !r.done,
    {
        WallPager { contributors: Vec::new(), page: 1, max, done: false }
    }

    /// The page to request next: pages are requested while fewer than `max`
    /// contributors arrived and the listing has not ended.
    pub fn next_page(&self) -> (r: Option<u32>)
        ensures
            r == if !self.done && self.contributors@.len() < self.max {
                Some(self.page)
            } else {
                None::<u32>
            },
    {
        if !self.done && self.contributors.len() < self.max {
            Some(self.page)
        } else {
            None
        }
    }

    /// Take in one page of the listing: an empty page ends it; otherwise its
    /// entries are appended in order, and a short page (under 100) ends it
    /// while a full one moves on to the next page.
    pub fn absorb(&mut self, batch: Vec<Contributor>)
        requires
            batch@.len() >= PAGE_SIZE ==> old(self).page < u32::MAX,
        ensures
            final(self).max == old(self).max,
            final(self).contributors@ == old(self).contributors@ + batch@,
            final(self).done == (old(self).done || batch@.len() < PAGE_SIZE),
            final(self).page == if batch@.len() < PAGE_SIZE {
                old(self).page
            } else {
                (old(self).page + 1) as u32
            },
    {
        let mut batch = batch;
        if batch.len() == 0 {
            self.done = true;
            return;
        }
        let exhausted = batch.len() < PAGE_SIZE;
        self.contributors.append(&mut batch);
        if exhausted {
            self.done = true;
        } else {
            self.page = self.page + 1;
        }
    }
}

/// Whether a contributor belongs on the wall: it has a login, and it is not a
/// bot unless bots are included.
pub open spec fn keeps(c: Contributor, include_bots: bool) -> bool {
    c.login is Some && (include_bots || c.kind@ != "Bot"@)
}

/// The contributors of `s` that belong on the wall, in order.
pub open spec fn kept(s: Seq<Contributor>, include_bots: bool) -> Seq<Contributor>
    decreases s.len(),
{
    if s.len() == 0 {
        seq![]
    } else {
        let rest = kept(s.drop_last(), include_bots);
        if keeps(s.last(), include_bots) {
            rest.push(s.last())
        } else {
            rest
        }
    }
}

proof fn lemma_kept_members(s: Seq<Contributor>, include_bots: bool)
    ensures
        kept(s, include_bots).len() <= s.len(),
        forall|i: int|
            0 <= i < kept(s, include_bots).len() ==> keeps(#[trigger] kept(s, include_bots)[i], include_bots),
        forall|j: int|
            0 <= j < s.len() && keeps(#[trigger] s[j], include_bots) ==> kept(s, include_bots).contains(s[j]),
    decreases s.len(),
{
    if s.len() > 0 {
        let p = s.drop_last();
        lemma_kept_members(p, include_bots);
        let k = kept(s, include_bots);
        let kp = kept(p, include_bots);
        assert forall|j: int| 0 <= j < s.len() && keeps(#[trigger] s[j], include_bots) implies k.contains(s[j]) by {
            if j < s.len() - 1 {
                assert(p[j] == s[j]);
                assert(kp.contains(p[j]));
                let m = choose|m: int| 0 <= m < kp.len() && kp[m] == p[j];
                if keeps(s.last(), include_bots) {
                    assert(k[m] == kp[m]);
                }
            } else {
                assert(k[k.len() - 1] == s.last());
            }
        }
        assert forall|i: int| 0 <= i < k.len() implies keeps(#[trigger] k[i], include_bots) by {
            if i < kp.len() {
                assert(k[i] == kp[i]);
            }
        }
    }
}

/// Law: the wall keeps only contributors that have a login and, unless bots
/// are included, are not bots; every such contributor of the listing is kept
/// (in listing order) up to `max` of them; the wall never exceeds `max`.
pub proof fn lemma_wall_selection(s: Seq<Contributor>, max: int, include_bots: bool)
    requires
        max >= 0,
    ensures
        take_at_most(kept(s, include_bots), max).len() == if kept(s, include_bots).len() <= max {
            kept(s, include_bots).len() as int
        } else {
            max
        },
        forall|i: int|
            0 <= i < take_at_most(kept(s, include_bots), max).len() ==> {
                let c = #[trigger] take_at_most(kept(s, include_bots), max)[i];
                &&& c.login is Some
                &&& include_bots || c.kind@ != "Bot"@
                &&& c == kept(s, include_bots)[i]
            },
        kept(s, include_bots).len() <= max ==> forall|j: int|
            0 <= j < s.len() && keeps(#[trigger] s[j], include_bots) ==> take_at_most(
                kept(s, include_bots),
                max,
            ).contains(s[j]),
{
    lemma_kept_members(s, include_bots);
    let k = kept(s, include_bots);
    let r = take_at_most(k, max);
    assert forall|i: int| 0 <= i < r.len() implies r[i] == k[i] && keeps(#[trigger] r[i], include_bots) by {
        assert(r[i] == k[i]);
        assert(keeps(k[i], include_bots));
    }
}

/// At most the first `max` of `s`.
pub open spec fn take_at_most<A>(s: Seq<A>, max: int) -> Seq<A> {
    if s.len() <= max {
        s
    } else {
        s.take(max)
    }
}

/// Filter bots (unless included) and login-less entries, keep API order, and
/// truncate to `max`.
pub fn select_contributors(contributors: Vec<Contributor>, max: usize, include_bots: bool) -> (r:
    Vec<Contributor>)
    ensures
        r@ == take_at_most(kept(contributors@, include_bots), max as int),
{
    let ghost all = contributors@;
    let mut out: Vec<Contributor> = Vec::new();
    for c in it: contributors.into_iter()
        invariant
            it.seq() == all,
            out@ == kept(all.take(it.index() as int), include_bots),
    {
        let ghost k = it.index();
        assert(all.take(k + 1).drop_last() == all.take(k as int));
        assert(all.take(k + 1).last() == c);
        let keep = c.login.is_some() && (include_bots || !c.is_bot());
        if keep {
            out.push(c);
        }
    }
    assert(all.take(all.len() as int) == all);
    if out.len() > max {
        out.truncate(max);
    }
    out
}

/// The avatar URL requested for a contributor: its `avatar_url` with the
/// pixel size appended as `&s=N`.
pub fn avatar_request_url(avatar_url: &str, avatar_size: u32) -> (r: String)
    ensures
        r@ == avatar_url@ + "&s="@ + dec(avatar_size as nat),
{
    let mut s = String::from_str(avatar_url);
    s.append("&s=");
    push_dec(&mut s, avatar_size as u64);
    s
}

/// The Base64 alphabet of RFC 4648 (standard, with `+` and `/`).
pub open spec fn b64_char(v: int) -> char {
    if v < 26 {
        (65 + v) as char
    } else if v < 52 {
        (97 + v - 26) as char
    } else if v < 62 {
        (48 + v - 52) as char
    } else if v == 62 {
        '+'
    } else {
        '/'
    }
}

/// Standard Base64 (RFC 4648) with `=` padding: each group of three bytes
/// becomes four characters of six bits each.
pub open spec fn base64_standard(b: Seq<u8>) -> Seq<char>
    decreases b.len(),
{
    if b.len() == 0 {
        seq![]
    } else {
        let x = b[0] as int;
        let y = if b.len() > 1 {
            b[1] as int
        } else {
            0
        };
        let z = if b.len() > 2 {
            b[2] as int
        } else {
            0
        };
        let c0 = b64_char(x / 4);
        let c1 = b64_char((x % 4) * 16 + y / 16);
        let c2 = b64_char((y % 16) * 4 + z / 64);
        let c3 = b64_char(z % 64);
        if b.len() == 1 {
            seq![c0, c1, '=', '=']
        } else if b.len() == 2 {
            seq![c0, c1, c2, '=']
        } else {
            seq![c0, c1, c2, c3] + base64_standard(b.skip(3))
        }
    }
}

/// `base64::engine::general_purpose::STANDARD.encode(bytes)`: the standard
/// alphabet with padding, as its documentation describes.
#[verifier::external_body]
fn base64_encode(bytes: &[u8]) -> (r: String)
    ensures
        r@ == base64_standard(bytes@),
{
    base64::engine::general_purpose::STANDARD.encode(bytes)
}

/// The embedded avatar: `data:<mime>;base64,<payload>`.
pub fn avatar_data_uri(mime: &str, bytes: &[u8]) -> (r: String)
    ensures
        r@ == "data:"@ + mime@ + ";base64,"@ + base64_standard(bytes@),
{
    let mut s = String::from_str("data:");
    s.append(mime);
    s.append(";base64,");
    s.append(base64_encode(bytes).as_str());
    s
}

/// What `image::load_from_memory` decodes `bytes` to, as 8-bit RGBA: width,
/// height and pixel bytes; `None` when the bytes are not an image it reads.
pub uninterp spec fn decoded_rgba(bytes: Seq<u8>) -> Option<(u32, u32, Seq<u8>)>;

/// `image::load_from_memory(bytes)` (format guessed from the content), then
/// `into_rgba8()`, taken apart into width, height and raw pixels. The outcome
/// is named by [`decoded_rgba`]; which byte strings decode is left to `image`.
#[verifier::external_body]
fn decode_rgba(bytes: &[u8]) -> (r: Option<(u32, u32, Vec<u8>)>)
    ensures
        match r {
            Some((w, h, px)) => decoded_rgba(bytes@) == Some((w, h, px@)),
            None => decoded_rgba(bytes@) is None,
        },
{
    match image::load_from_memory(bytes) {
        Ok(img) => {
            let rgba = img.into_rgba8();
            Some((rgba.width(), rgba.height(), rgba.into_raw()))
        },
        Err(_) => None,
    }
}

/// The PNG file `image`'s encoder writes for a `w`×`h` RGBA image with pixel
/// bytes `px`, at default compression and adaptive filtering; `None` when it
/// reports an error.
pub uninterp spec fn png_encoded(w: u32, h: u32, px: Seq<u8>) -> Option<Seq<u8>>;

/// `image::codecs::png::PngEncoder::new_with_quality(.., CompressionType::Default,
/// FilterType::Adaptive)` then `write_image(px, w, h, Rgba8)` into a byte vector.
/// `px` holds exactly `w * h` pixels of four bytes (the encoder asserts this).
/// The output is named by [`png_encoded`].
#[verifier::external_body]
fn encode_png(w: u32, h: u32, px: &[u8]) -> (r: Option<Vec<u8>>)
    requires
        px@.len() == w * h * 4,
    ensures
        match r {
            Some(out) => png_encoded(w, h, px@) == Some(out@),
            None => png_encoded(w, h, px@) is None,
        },
{
    let mut out: Vec<u8> = Vec::new();
    let enc = image::codecs::png::PngEncoder::new_with_quality(
        &mut out,
        image::codecs::png::CompressionType::Default,
        image::codecs::png::FilterType::Adaptive,
    );
    match enc.write_image(px, w, h, image::ExtendedColorType::Rgba8) {
        Ok(()) => Some(out),
        Err(_) => None,
    }
}

/// The normalised avatar of a download: the bytes decoded to pixels and written
/// again as PNG with fixed settings, so that equal pixels give equal bytes;
/// `None` (the placeholder) when the bytes do not decode or do not re-encode.
pub open spec fn normalized_png(bytes: Seq<u8>) -> Option<Seq<u8>> {
    match decoded_rgba(bytes) {
        Some((w, h, px)) => if px.len() == w * h * 4 {
            png_encoded(w, h, px)
        } else {
            None
        },
        None => None,
    }
}

/// Normalise downloaded avatar bytes to PNG (see [`normalized_png`]).
pub fn normalize_avatar(bytes: &[u8]) -> (r: Option<Vec<u8>>)
    ensures
        match r {
            Some(p) => normalized_png(bytes@) == Some(p@),
            None => normalized_png(bytes@) is None,
        },
{
    match decode_rgba(bytes) {
        Some((w, h, px)) => {
            assert((w as u128) * (h as u128) * 4 <= 0x4_0000_0000_0000_0000) by (nonlinear_arith)
                requires
                    w <= 0xffff_ffff,
                    h <= 0xffff_ffff,
            ;
            let expected: u128 = (w as u128) * (h as u128) * 4;
            if px.len() as u128 == expected {
                encode_png(w, h, px.as_slice())
            } else {
                None
            }
        },
        None => None,
    }
}

/// The avatar a download yields: on success the normalised PNG embedded as
/// `data:image/png;base64,...`; the placeholder (`None`) when the download
/// failed or its bytes are no image.
pub fn avatar_from_fetch(fetched: &Result<(String, Vec<u8>), ScopeError>) -> (r: Option<String>)
    ensures
        match fetched {
            Ok((_, bytes)) => match normalized_png(bytes@) {
                Some(p) => r matches Some(u) && u@ == "data:image/png;base64,"@ + base64_standard(p),
                None => r is None,
            },
            Err(_) => r is None,
        },
{
    match fetched {
        Ok((_, bytes)) => match normalize_avatar(bytes.as_slice()) {
            Some(p) => {
                let u = avatar_data_uri("image/png", p.as_slice());
                proof {
                    reveal_strlit("data:");
                    reveal_strlit("image/png");
                    reveal_strlit(";base64,");
                    reveal_strlit("data:image/png;base64,");
                    assert("data:"@ + "image/png"@ + ";base64,"@ =~= "data:image/png;base64,"@);
                }
                Some(u)
            },
            None => None,
        },
        Err(_) => None,
    }
}

/// The wall cell of a contributor: its login (empty if absent), its
/// contribution count, and the given avatar.
pub fn wall_entry(c: Contributor, avatar: Option<String>) -> (r: WallEntry)
    ensures
        r.login@ == match c.login {
            Some(l) => l@,
            None => Seq::<char>::empty(),
        },
        r.contributions == c.contributions,
        r.avatar == avatar,
{
    let login = match c.login {
        Some(l) => l,
        None => String::new(),
    };
    WallEntry { login, contributions: c.contributions, avatar }
}

} // verus!
