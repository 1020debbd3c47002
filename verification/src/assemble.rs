//! Resource assembler.
//!
//! Normalizes heterogeneous inputs — the source text, an optional
//! bibliography, and an image table mapping identifiers to encoded payloads —
//! into one immutable compilation unit: the source plus an ordered set of
//! named static blobs. A payload may carry a data-URL-style header up to the
//! first comma; the rest (or the whole payload if there is no comma) is
//! decoded as standard base64. An entry that fails to decode is recorded as
//! skipped and never aborts the whole render.

use vstd::prelude::*;
use vstd::utf8::encode_utf8;

verus! {

/// One entry of the image table: an identifier and its encoded payload.
pub struct ImageEntry {
    pub id: String,
    pub payload: String,
}

/// A named, immutable byte payload injected into a render.
pub struct NamedBlob {
    pub name: String,
    pub bytes: Vec<u8>,
}

/// The normalized, immutable input to the render engine: the source text and
/// the named static blobs (the bibliography under its reserved name, each
/// successfully decoded image under its identifier).
pub struct CompilationUnit {
    pub source: String,
    pub blobs: Vec<NamedBlob>,
}

/// Failure of assembly itself; a bad image entry is not one (it is skipped).
#[derive(Debug)]
pub enum AssembleError {
    EmptySource,
}

/// The characters that trimming removes: the Unicode `White_Space` set.
pub open spec fn spec_is_space(c: char) -> bool {
    let u = c as u32;
    u == 0x9 || u == 0xA || u == 0xB || u == 0xC || u == 0xD || u == 0x20 || u == 0x85
        || u == 0xA0 || u == 0x1680 || (0x2000 <= u && u <= 0x200A) || u == 0x2028
        || u == 0x2029 || u == 0x202F || u == 0x205F || u == 0x3000
}

/// A text is blank when trimming leaves nothing of it.
pub open spec fn spec_blank(s: Seq<char>) -> bool {
    forall|j: int| 0 <= j < s.len() ==> spec_is_space(s[j])
}

/// Index of the first comma, or the length of the text if it has none.
pub open spec fn first_comma(s: Seq<char>) -> int
    decreases s.len(),
{
    if s.len() == 0 {
        0
    } else if s[0] == ',' {
        0
    } else {
        1 + first_comma(s.subrange(1, s.len() as int))
    }
}

/// The encoded body of a payload: everything after the first comma (the
/// part before it is a data-URL-style header), or the whole payload if it
/// has no comma.
pub open spec fn spec_body(s: Seq<char>) -> Seq<char> {
    if first_comma(s) < s.len() {
        s.subrange(first_comma(s) + 1, s.len() as int)
    } else {
        s
    }
}

pub proof fn lemma_first_comma(s: Seq<char>)
    ensures
        0 <= first_comma(s) <= s.len(),
        first_comma(s) < s.len() ==> s[first_comma(s)] == ',',
        forall|j: int| 0 <= j < first_comma(s) ==> s[j] != ',',
    decreases s.len(),
{
    if s.len() != 0 && s[0] != ',' {
        lemma_first_comma(s.subrange(1, s.len() as int));
        assert forall|j: int| 0 <= j < first_comma(s) implies s[j] != ',' by {
            if j > 0 {
                assert(s.subrange(1, s.len() as int)[j - 1] == s[j]);
            }
        }
    }
}

/// Names the result of decoding a text as standard-alphabet, padded base64:
/// the decoded bytes, or nothing if the text is not valid base64.
pub uninterp spec fn base64_decoded(s: Seq<char>) -> Option<Seq<u8>>;

/// Relies on base64's `Engine::decode` with the `STANDARD` engine: whether a
/// text decodes, and to which bytes, is a function of the text alone.
#[verifier::external_body]
fn decode_base64(s: &str) -> (r: Option<Vec<u8>>)
    ensures
        match r {
            Some(v) => base64_decoded(s@) == Some(v@),
            None => base64_decoded(s@) is None,
        },
{
    base64::Engine::decode(&base64::engine::general_purpose::STANDARD, s).ok()
}

/// What decoding an image table entry yields.
pub open spec fn decoded_entry(e: ImageEntry) -> Option<Seq<u8>> {
    base64_decoded(spec_body(e.payload@))
}

/// The image blobs of a compilation unit: one blob per entry that decodes,
/// under the entry's identifier, in table order.
pub open spec fn image_blobs(entries: Seq<ImageEntry>) -> Seq<(Seq<char>, Seq<u8>)>
    decreases entries.len(),
{
    if entries.len() == 0 {
        Seq::empty()
    } else {
        let rest = image_blobs(entries.drop_last());
        match decoded_entry(entries.last()) {
            Some(b) => rest.push((entries.last().id@, b)),
            None => rest,
        }
    }
}

/// The identifiers of the entries that fail to decode, in table order.
pub open spec fn skipped_ids(entries: Seq<ImageEntry>) -> Seq<Seq<char>>
    decreases entries.len(),
{
    if entries.len() == 0 {
        Seq::empty()
    } else {
        let rest = skipped_ids(entries.drop_last());
        match decoded_entry(entries.last()) {
            Some(_) => rest,
            None => rest.push(entries.last().id@),
        }
    }
}

/// The blob the bibliography contributes: its text as bytes under the
/// reserved name, or nothing when it is absent or blank.
pub open spec fn bib_blobs(bib: Option<Seq<char>>) -> Seq<(Seq<char>, Seq<u8>)> {
    match bib {
        Some(b) => if spec_blank(b) {
            Seq::empty()
        } else {
            seq![("refs.yml"@, encode_utf8(b))]
        },
        None => Seq::empty(),
    }
}

/// The name and bytes of each blob, in order.
pub open spec fn blob_views(blobs: Seq<NamedBlob>) -> Seq<(Seq<char>, Seq<u8>)> {
    blobs.map_values(|b: NamedBlob| (b.name@, b.bytes@))
}

/// The view of the bibliography argument.
pub open spec fn bib_view(bib: Option<&str>) -> Option<Seq<char>> {
    match bib {
        Some(b) => Some(b@),
        None => None,
    }
}

fn is_space(c: char) -> (r: bool)
    ensures
        r == spec_is_space(c),
{
    let u = c as u32;
    u == 0x9 || u == 0xA || u == 0xB || u == 0xC || u == 0xD || u == 0x20 || u == 0x85
        || u == 0xA0 || u == 0x1680 || (0x2000 <= u && u <= 0x200A) || u == 0x2028
        || u == 0x2029 || u == 0x202F || u == 0x205F || u == 0x3000
}

/// Whether trimming the text leaves nothing.
pub fn is_blank(s: &str) -> (r: bool)
    ensures
        r == spec_blank(s@),
{
    let n = s.unicode_len();
    let mut i: usize = 0;
    while i < n
        invariant
            n == s@.len(),
            0 <= i <= n,
            forall|j: int| 0 <= j < i ==> spec_is_space(s@[j]),
        decreases n - i,
    {
        if !is_space(s.get_char(i)) {
            return false;
        }
        i = i + 1;
    }
    true
}

/// The encoded body of a payload: the part after the first comma, or the
/// whole payload if it has no comma.
fn payload_body<'a>(payload: &'a String) -> (r: &'a str)
    ensures
        r@ == spec_body(payload@),
{
    let s = payload.as_str();
    let n = s.unicode_len();
    let mut i: usize = 0;
    while i < n
        invariant
            n == s@.len(),
            s@ == payload@,
            0 <= i <= n,
            forall|j: int| 0 <= j < i ==> s@[j] != ',',
        decreases n - i,
    {
        if s.get_char(i) == ',' {
            proof {
                lemma_first_comma(payload@);
            }
            return s.substring_char(i + 1, n);
        }
        i = i + 1;
    }
    proof {
        lemma_first_comma(payload@);
    }
    s
}

/// Builds the compilation unit: fails with `EmptySource` if the trimmed
/// source is empty; otherwise adds the bibliography (when present and
/// non-blank) under the reserved name, decodes every image entry's base64
/// body, keeps each decoded image as a blob under its identifier, and
/// records the identifier of every entry that fails to decode.
pub fn assemble(source: &str, bibliography: Option<&str>, images: &Vec<ImageEntry>) -> (r: Result<
    (CompilationUnit, Vec<String>),
    AssembleError,
>)
    ensures
        r is Err <==> spec_blank(source@),
        r is Err ==> r == Result::<(CompilationUnit, Vec<String>), AssembleError>::Err(
            AssembleError::EmptySource,
        ),
        r matches Ok((unit, skipped)) ==> unit.source@ == source@ && blob_views(unit.blobs@)
            == bib_blobs(bib_view(bibliography)) + image_blobs(images@) && skipped@.map_values(
            |s: String| s@,
        ) == skipped_ids(images@),
{
    if is_blank(source) {
        return Err(AssembleError::EmptySource);
    }
    let mut blobs: Vec<NamedBlob> = Vec::new();
    let mut skipped: Vec<String> = Vec::new();
    match bibliography {
        Some(bib) => {
            if !is_blank(bib) {
                blobs.push(NamedBlob { name: String::from_str("refs.yml"), bytes: bib.as_bytes_vec() });
            }
        }
        None => {},
    }
    assert(blob_views(blobs@) =~= bib_blobs(bib_view(bibliography)));
    let mut i: usize = 0;
    while i < images.len()
        invariant
            0 <= i <= images.len(),
            blob_views(blobs@) =~= bib_blobs(bib_view(bibliography)) + image_blobs(
                images@.take(i as int),
            ),
            skipped@.map_values(|s: String| s@) =~= skipped_ids(images@.take(i as int)),
        decreases images.len() - i,
    {
        let entry = &images[i];
        let body = payload_body(&entry.payload);
        proof {
            assert(images@.take(i + 1).drop_last() =~= images@.take(i as int));
            assert(images@.take(i + 1).last() == images@[i as int]);
        }
        match decode_base64(body) {
            Some(bytes) => {
                let ghost pre = blobs@;
                let ghost gbytes = bytes@;
                let name = entry.id.clone();
                let ghost gname = name@;
                blobs.push(NamedBlob { name, bytes });
                proof {
                    assert(blobs@ =~= pre.push(
                        NamedBlob { name: blobs@.last().name, bytes: blobs@.last().bytes },
                    ));
                    assert(blobs@.last().name@ == gname);
                    assert(blobs@.last().bytes@ == gbytes);
                    assert(decoded_entry(images@[i as int]) == Some(gbytes));
                    assert(blob_views(blobs@) =~= blob_views(pre).push((gname, gbytes)));
                }
                assert(blob_views(blobs@) =~= bib_blobs(bib_view(bibliography)) + image_blobs(
                    images@.take(i + 1),
                ));
                assert(skipped@.map_values(|s: String| s@) =~= skipped_ids(images@.take(i + 1)));
            },
            None => {
                skipped.push(entry.id.clone());
                assert(blob_views(blobs@) =~= bib_blobs(bib_view(bibliography)) + image_blobs(
                    images@.take(i + 1),
                ));
                assert(skipped@.map_values(|s: String| s@) =~= skipped_ids(images@.take(i + 1)));
            },
        }
        i = i + 1;
    }
    proof {
        assert(images@.take(images@.len() as int) =~= images@);
    }
    Ok((CompilationUnit { source: source.to_owned(), blobs }, skipped))
}

} // verus!
