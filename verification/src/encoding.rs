//! Choosing how a static page is sent: compressed with gzip, compressed with
//! deflate, or as it is, from what the client accepts and from which of the
//! two compressed forms came out smaller.
use std::io::Write;
use vstd::prelude::*;

verus! {

/// A content coding named in a request's `Accept-Encoding` header.
#[derive(PartialEq, Eq, Structural, Clone, Copy, Debug)]
pub enum Coding {
    Gzip,
    Deflate,
    /// Any other coding; it plays no part in the choice.
    Other,
}

/// The form in which a page is sent.
#[derive(PartialEq, Eq, Structural, Clone, Copy, Debug)]
pub enum Served {
    Gzip,
    Deflate,
    /// Uncompressed, with no `Content-Encoding` header.
    Raw,
}

/// Whether `c` occurs in `codings`.
pub open spec fn names(codings: Seq<Coding>, c: Coding) -> bool {
    exists|k: int| 0 <= k < codings.len() && codings[k] == c
}

/// The choice: gzip when it is accepted and either deflate is not, or gzip
/// came out strictly smaller; otherwise deflate when it is accepted;
/// otherwise the raw page.
pub open spec fn choice(accepts_gzip: bool, accepts_deflate: bool, gzip_len: int, deflate_len: int) -> Served {
    if accepts_gzip && (!accepts_deflate || gzip_len < deflate_len) {
        Served::Gzip
    } else if accepts_deflate {
        Served::Deflate
    } else {
        Served::Raw
    }
}

/// Whether gzip is the form to prefer over deflate for a page whose two
/// compressed forms have these lengths.
pub fn gzip_preferred(gzip_len: usize, deflate_len: usize) -> (b: bool)
    ensures
        b == (gzip_len < deflate_len),
{
    gzip_len < deflate_len
}

/// Which of gzip and deflate the codings of a request name, in that order.
pub fn accepted(codings: &Vec<Coding>) -> (r: (bool, bool))
    ensures
        r.0 == names(codings@, Coding::Gzip),
        r.1 == names(codings@, Coding::Deflate),
{
    let mut accepts_gzip = false;
    let mut accepts_deflate = false;
    let mut k: usize = 0;
    while k < codings.len()
        invariant
            k <= codings@.len(),
            accepts_gzip == exists|m: int| 0 <= m < k && codings@[m] == Coding::Gzip,
            accepts_deflate == exists|m: int| 0 <= m < k && codings@[m] == Coding::Deflate,
        decreases codings@.len() - k,
    {
        match codings[k] {
            Coding::Gzip => {
                accepts_gzip = true;
            },
            Coding::Deflate => {
                accepts_deflate = true;
            },
            Coding::Other => {},
        }
        k = k + 1;
    }
    (accepts_gzip, accepts_deflate)
}

/// The form in which to send a page to a request with these codings, given
/// the lengths of the page's gzip and deflate forms.
pub fn negotiate(codings: &Vec<Coding>, gzip_len: usize, deflate_len: usize) -> (s: Served)
    ensures
        s == choice(
            names(codings@, Coding::Gzip),
            names(codings@, Coding::Deflate),
            gzip_len as int,
            deflate_len as int,
        ),
{
    let (accepts_gzip, accepts_deflate) = accepted(codings);
    let preferred = gzip_preferred(gzip_len, deflate_len);
    let use_gzip = accepts_gzip && (!accepts_deflate || preferred);
    let use_deflate = accepts_deflate && !use_gzip;
    if use_gzip {
        Served::Gzip
    } else if use_deflate {
        Served::Deflate
    } else {
        Served::Raw
    }
}

/// Optional bytes as a sequence.
pub open spec fn opt_bytes(r: Option<Vec<u8>>) -> Option<Seq<u8>> {
    match r {
        Some(v) => Some(v@),
        None => None,
    }
}

/// What `flate2`'s gzip writer (`write::GzEncoder` at `Compression::best()`,
/// writing into a `Vec`) produces for `data`; `None` if it reports an error.
pub uninterp spec fn gzip_compressed(data: Seq<u8>) -> Option<Seq<u8>>;

/// What `flate2`'s raw deflate writer (`write::DeflateEncoder` at
/// `Compression::best()`, writing into a `Vec`) produces for `data`; `None`
/// if it reports an error.
pub uninterp spec fn deflate_compressed(data: Seq<u8>) -> Option<Seq<u8>>;

/// Compresses `data` with `flate2::write::GzEncoder` at the best compression
/// (`write_all`, then `finish`). The result is the one `gzip_compressed`
/// names: the gzip header that the encoder writes holds no time stamp and a
/// fixed operating-system byte, so for the compression backend that flate2
/// is built with the output depends on the input alone.
#[verifier::external_body]
fn gzip_best(data: &Vec<u8>) -> (r: Option<Vec<u8>>)
    ensures
        opt_bytes(r) == gzip_compressed(data@),
{
    let mut e = flate2::write::GzEncoder::new(Vec::new(), flate2::Compression::best());
    e.write_all(data).ok().and_then(|_| e.finish().ok())
}

/// Compresses `data` with `flate2::write::DeflateEncoder` at the best
/// compression (`write_all`, then `finish`). The result is the one
/// `deflate_compressed` names.
#[verifier::external_body]
fn deflate_best(data: &Vec<u8>) -> (r: Option<Vec<u8>>)
    ensures
        opt_bytes(r) == deflate_compressed(data@),
{
    let mut e = flate2::write::DeflateEncoder::new(Vec::new(), flate2::Compression::best());
    e.write_all(data).ok().and_then(|_| e.finish().ok())
}

/// A static page in its three forms: raw, gzip and deflate.
pub struct Page {
    raw: Vec<u8>,
    gzip: Vec<u8>,
    deflate: Vec<u8>,
}

impl Page {
    /// The raw bytes of the page.
    pub closed spec fn spec_raw(&self) -> Seq<u8> {
        self.raw@
    }

    /// The gzip form of the page.
    pub closed spec fn spec_gzip(&self) -> Seq<u8> {
        self.gzip@
    }

    /// The deflate form of the page.
    pub closed spec fn spec_deflate(&self) -> Seq<u8> {
        self.deflate@
    }

    /// Compresses a page both ways; `None` when either compression fails.
    pub fn new(raw: Vec<u8>) -> (p: Option<Page>)
        ensures
            match (gzip_compressed(raw@), deflate_compressed(raw@)) {
                (Some(g), Some(d)) => p matches Some(page) && page.spec_raw() == raw@
                    && page.spec_gzip() == g && page.spec_deflate() == d,
                _ => p is None,
            },
    {
        let gzip = match gzip_best(&raw) {
            Some(g) => g,
            None => return None,
        };
        let deflate = match deflate_best(&raw) {
            Some(d) => d,
            None => return None,
        };
        Some(Page { raw, gzip, deflate })
    }

    /// The lengths of the raw, gzip and deflate forms.
    pub fn sizes(&self) -> (r: (usize, usize, usize))
        ensures
            r.0 == self.spec_raw().len(),
            r.1 == self.spec_gzip().len(),
            r.2 == self.spec_deflate().len(),
    {
        (self.raw.len(), self.gzip.len(), self.deflate.len())
    }

    /// The form to send to a request with these codings, and its bytes.
    pub fn respond(&self, codings: &Vec<Coding>) -> (r: (Served, &Vec<u8>))
        ensures
            r.0 == choice(
                names(codings@, Coding::Gzip),
                names(codings@, Coding::Deflate),
                self.spec_gzip().len() as int,
                self.spec_deflate().len() as int,
            ),
            r.1@ == (match r.0 {
                Served::Gzip => self.spec_gzip(),
                Served::Deflate => self.spec_deflate(),
                Served::Raw => self.spec_raw(),
            }),
    {
        let s = negotiate(codings, self.gzip.len(), self.deflate.len());
        match s {
            Served::Gzip => (s, &self.gzip),
            Served::Deflate => (s, &self.deflate),
            Served::Raw => (s, &self.raw),
        }
    }
}

/// A page is only ever sent compressed in a coding that the request accepts,
/// and it is sent raw only when the request accepts neither compression.
pub proof fn law_served_coding_is_accepted(codings: Seq<Coding>, gzip_len: int, deflate_len: int)
    ensures
        ({
            let s = choice(
                names(codings, Coding::Gzip),
                names(codings, Coding::Deflate),
                gzip_len,
                deflate_len,
            );
            &&& s == Served::Gzip ==> names(codings, Coding::Gzip)
            &&& s == Served::Deflate ==> names(codings, Coding::Deflate)
            &&& s == Served::Raw <==> !names(codings, Coding::Gzip) && !names(
                codings,
                Coding::Deflate,
            )
        }),
{
}

/// When the request accepts both compressions, the smaller form is sent, with
/// deflate winning a tie.
pub proof fn law_smaller_form_wins(gzip_len: int, deflate_len: int)
    ensures
        choice(true, true, gzip_len, deflate_len) == (if gzip_len < deflate_len {
            Served::Gzip
        } else {
            Served::Deflate
        }),
{
}

} // verus!
