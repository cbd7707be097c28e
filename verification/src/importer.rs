//! Pure helpers for glTF 2.0 asset import: image-format detection, the
//! binary-container magic check, buffer storage, and the buffer-URI
//! validation rule for binary assets.
//!
//! File reading, JSON parsing and glTF validation proper are the host's
//! business; these helpers cover the decisions the importer makes on plain
//! bytes and strings.

use vstd::prelude::*;

verus! {

use vstd::string::StrSliceExecFns;

/// The image encodings a glTF asset may embed.
#[derive(Clone, Copy, Debug, PartialEq, Eq, Structural)]
pub enum ImageFormat {
    Png,
    Jpeg,
}

impl ImageFormat {
    /// The format named by a MIME type.  Only the two supported image MIME
    /// types are accepted.
    pub fn from_mime_type(mime: &str) -> (r: Self)
        requires
            mime@ == "image/jpeg"@ || mime@ == "image/png"@,
        ensures
            mime@ == "image/jpeg"@ ==> r == ImageFormat::Jpeg,
            mime@ == "image/png"@ ==> r == ImageFormat::Png,
    {
        proof {
            reveal_strlit("image/jpeg");
            reveal_strlit("image/png");
            assert("image/jpeg"@.len() == 10);
            assert("image/png"@.len() == 9);
            assert("image/jpeg"@ != "image/png"@);
        }
        if str_eq(mime, "image/jpeg") {
            ImageFormat::Jpeg
        } else {
            ImageFormat::Png
        }
    }

    /// The format suggested by a lower-case file extension.  Only the three
    /// supported extensions are accepted.
    pub fn from_extension(ext: &str) -> (r: Self)
        requires
            ext@ == "jpg"@ || ext@ == "jpeg"@ || ext@ == "png"@,
        ensures
            (ext@ == "jpg"@ || ext@ == "jpeg"@) ==> r == ImageFormat::Jpeg,
            ext@ == "png"@ ==> r == ImageFormat::Png,
    {
        proof {
            reveal_strlit("jpg");
            reveal_strlit("jpeg");
            reveal_strlit("png");
            assert("jpg"@[0] == 'j');
            assert("png"@[0] == 'p');
            assert("jpg"@ != "png"@);
            assert("jpeg"@ != "png"@);
        }
        if str_eq(ext, "jpg") || str_eq(ext, "jpeg") {
            ImageFormat::Jpeg
        } else {
            ImageFormat::Png
        }
    }
}

/// Character-by-character string equality.
fn str_eq(a: &str, b: &str) -> (r: bool)
    ensures
        r <==> a@ == b@,
{
    let a_len = a.unicode_len();
    let b_len = b.unicode_len();
    if a_len != b_len {
        return false;
    }
    let mut i: usize = 0;
    while i < a_len
        invariant
            i <= a_len,
            a_len == a@.len(),
            b_len == b@.len(),
            a_len == b_len,
            forall|k: int| 0 <= k < i ==> a@[k] == b@[k],
        decreases a_len - i,
    {
        if a.get_char(i) != b.get_char(i) {
            return false;
        }
        i += 1;
    }
    proof {
        assert(a@ =~= b@);
    }
    true
}

/// The bytes begin with the binary-glTF magic `b"glTF"`.
pub open spec fn is_glb_header(bytes: Seq<u8>) -> bool {
    bytes.len() >= 4 && bytes[0] == 103u8 && bytes[1] == 108u8 && bytes[2] == 84u8 && bytes[3]
        == 70u8
}

/// Whether imported data is a binary glTF container rather than standard
/// JSON text: it starts with the four magic bytes `b"glTF"`.
pub fn is_binary_gltf(data: &Vec<u8>) -> (r: bool)
    ensures
        r <==> is_glb_header(data@),
{
    data.len() >= 4 && data[0] == 103 && data[1] == 108 && data[2] == 84 && data[3] == 70
}

/// Buffer data loaded for a glTF asset, indexed as the asset indexes its
/// buffers.
#[derive(Clone, Debug)]
pub struct Buffers {
    buffers: Vec<Vec<u8>>,
}

impl View for Buffers {
    type V = Seq<Vec<u8>>;

    closed spec fn view(&self) -> Seq<Vec<u8>> {
        self.buffers@
    }
}

impl Buffers {
    /// Wrap loaded buffer data.
    pub fn new(buffers: Vec<Vec<u8>>) -> (r: Self)
        ensures
            r@ == buffers@,
    {
        Buffers { buffers }
    }

    /// Obtain the contents of a loaded buffer.
    pub fn buffer(&self, index: usize) -> (r: Option<&Vec<u8>>)
        ensures
            r is Some <==> index < self@.len(),
            r matches Some(b) ==> *b == self@[index as int],
    {
        if index < self.buffers.len() {
            Some(&self.buffers[index])
        } else {
            None
        }
    }

    /// Obtain the contents of a buffer view: `length` bytes of buffer
    /// `index` starting at `offset`.  `None` when the buffer does not exist
    /// or the range does not fit inside it.
    pub fn view_bytes(&self, index: usize, offset: usize, length: usize) -> (r: Option<Vec<u8>>)
        ensures
            r is Some <==> (index < self@.len() && offset + length <= self@[index as int]@.len()),
            r matches Some(v) ==> v@ == self@[index as int]@.subrange(
                offset as int,
                offset as int + length as int,
            ),
    {
        if index >= self.buffers.len() {
            return None;
        }
        let data = &self.buffers[index];
        if offset > data.len() || length > data.len() - offset {
            return None;
        }
        let end = offset + length;
        let mut out: Vec<u8> = Vec::new();
        let mut j: usize = offset;
        while j < end
            invariant
                offset <= j <= end,
                end == offset + length,
                end <= data@.len(),
                index < self@.len(),
                data@ == self@[index as int]@,
                out@ =~= data@.subrange(offset as int, j as int),
            decreases end - j,
        {
            out.push(data[j]);
            j += 1;
        }
        proof {
            assert(out@ =~= data@.subrange(offset as int, offset as int + length as int));
        }
        Some(out)
    }

    /// Take the loaded buffer data.
    pub fn take(self) -> (r: Vec<Vec<u8>>)
        ensures
            r@ == self@,
    {
        self.buffers
    }
}

/// What base64 decoding yields on a given text: the decoded bytes, or
/// nothing when the text is not valid standard base64.
pub uninterp spec fn base64_decoded(s: Seq<char>) -> Option<Seq<u8>>;

/// Relies on `base64::decode` (standard alphabet): the outcome, success or
/// failure, is a function of the input characters alone, and invalid input
/// yields an error rather than a panic.
#[verifier::external_body]
fn decode_base64(s: &str) -> (r: Option<Vec<u8>>)
    ensures
        r is Some <==> base64_decoded(s@) is Some,
        r matches Some(v) ==> base64_decoded(s@) == Some(v@),
{
    base64::decode(s).ok()
}

/// Some character of `s` is a comma.
pub open spec fn contains_comma(s: Seq<char>) -> bool {
    exists|k: int| 0 <= k < s.len() && s[k] == ','
}

/// The index of the first comma of `s`, or `s.len()` when there is none.
pub open spec fn first_comma(s: Seq<char>) -> int
    decreases s.len(),
{
    if s.len() == 0 {
        0
    } else if s[0] == ',' {
        0
    } else {
        1 + first_comma(s.drop_first())
    }
}

/// The base64 payload of a data URI: the text between the first comma and
/// the following comma or the end.
pub open spec fn data_uri_payload(uri: Seq<char>) -> Seq<char> {
    let rest = uri.skip(first_comma(uri) + 1);
    rest.take(first_comma(rest))
}

/// `first_comma` is the index of the first comma.
proof fn lemma_first_comma_is_first(s: Seq<char>, i: int)
    requires
        0 <= i <= s.len(),
        forall|k: int| 0 <= k < i ==> s[k] != ',',
        i < s.len() ==> s[i] == ',',
    ensures
        first_comma(s) == i,
    decreases s.len(),
{
    if s.len() == 0 {
    } else if s[0] == ',' {
        assert(i == 0);
    } else {
        assert(i >= 1);
        let s0 = s.drop_first();
        assert(forall|k: int| 0 <= k < i - 1 ==> s0[k] != ',');
        assert(i - 1 < s0.len() ==> s0[i - 1] == ',');
        lemma_first_comma_is_first(s0, i - 1);
    }
}

/// Linear scan for the first comma of `s` at or after `from`.
fn find_comma_from(s: &str, from: usize) -> (p: usize)
    requires
        from <= s@.len(),
    ensures
        from <= p <= s@.len(),
        forall|k: int| from <= k < p ==> s@[k] != ',',
        p < s@.len() ==> s@[p as int] == ',',
{
    let n = s.unicode_len();
    let mut i: usize = from;
    while i < n
        invariant
            from <= i <= n,
            n == s@.len(),
            forall|k: int| from <= k < i ==> s@[k] != ',',
        decreases n - i,
    {
        if s.get_char(i) == ',' {
            return i;
        }
        i += 1;
    }
    i
}

/// Decode the base64 payload of a data URI, as the importer does: the text
/// between the first comma and the next comma or the end is decoded, and
/// invalid base64 yields `None`.  The URI must contain a comma.
pub fn parse_data_uri(uri: &str) -> (r: Option<Vec<u8>>)
    requires
        contains_comma(uri@),
    ensures
        r is Some <==> base64_decoded(data_uri_payload(uri@)) is Some,
        r matches Some(v) ==> base64_decoded(data_uri_payload(uri@)) == Some(v@),
{
    let n = uri.unicode_len();
    let a = find_comma_from(uri, 0);
    proof {
        if a == uri@.len() {
            let k = choose|k: int| 0 <= k < uri@.len() && uri@[k] == ',';
            assert(uri@[k] != ',');
        }
    }
    assert(a < n);
    let b = find_comma_from(uri, a + 1);
    let payload = uri.substring_char(a + 1, b);
    proof {
        lemma_first_comma_is_first(uri@, a as int);
        let rest = uri@.skip(a as int + 1);
        assert forall|k: int| 0 <= k < b - (a as int + 1) implies rest[k] != ',' by {
            assert(uri@[k + a + 1] != ',');
        }
        assert(b < uri@.len() ==> rest[b - (a as int + 1)] == ',');
        lemma_first_comma_is_first(rest, b as int - (a as int + 1));
        assert(rest.take(b as int - (a as int + 1)) =~= uri@.subrange(a as int + 1, b as int));
        assert(data_uri_payload(uri@) == payload@);
    }
    decode_base64(payload)
}

/// How a glTF buffer's contents are obtained: the binary container's
/// embedded chunk, an inline data URI, or an external file.
#[derive(Clone, Copy, Debug, PartialEq, Eq, Structural)]
pub enum BufferSource {
    Bin,
    DataUri,
    External,
}

/// The string starts with the data-URI scheme prefix `data:`.
pub open spec fn starts_with_data(s: Seq<char>) -> bool {
    s.len() >= 5 && s.subrange(0, 5) == "data:"@
}

/// Whether `s` starts with `data:`.
fn str_starts_with_data(s: &str) -> (r: bool)
    ensures
        r == starts_with_data(s@),
{
    proof {
        reveal_strlit("data:");
    }
    let n = s.unicode_len();
    if n < 5 {
        return false;
    }
    let ok = s.get_char(0) == 'd' && s.get_char(1) == 'a' && s.get_char(2) == 't' && s.get_char(3)
        == 'a' && s.get_char(4) == ':';
    proof {
        if ok {
            assert(s@.subrange(0, 5) =~= "data:"@);
        } else {
            if starts_with_data(s@) {
                assert(s@[0] == s@.subrange(0, 5)[0]);
                assert(s@[1] == s@.subrange(0, 5)[1]);
                assert(s@[2] == s@.subrange(0, 5)[2]);
                assert(s@[3] == s@.subrange(0, 5)[3]);
                assert(s@[4] == s@.subrange(0, 5)[4]);
            }
        }
    }
    ok
}

/// Classify a buffer's URI as the importer does: the distinguished `#bin`
/// name refers to the embedded binary chunk, a `data:` prefix marks an
/// inline data URI, and anything else names an external file to load.
pub fn classify_buffer_uri(uri: &str) -> (r: BufferSource)
    ensures
        uri@ == "#bin"@ ==> r == BufferSource::Bin,
        uri@ != "#bin"@ && starts_with_data(uri@) ==> r == BufferSource::DataUri,
        uri@ != "#bin"@ && !starts_with_data(uri@) ==> r == BufferSource::External,
{
    if str_eq(uri, "#bin") {
        BufferSource::Bin
    } else if str_starts_with_data(uri) {
        BufferSource::DataUri
    } else {
        BufferSource::External
    }
}

/// The first buffer whose loaded data falls short of its declared length:
/// the index at which the importer reports a buffer-length error, `None`
/// when every buffer is long enough.
pub fn first_short_buffer(loaded: &Vec<usize>, required: &Vec<usize>) -> (r: Option<usize>)
    requires
        loaded@.len() == required@.len(),
    ensures
        r matches Some(i) ==> i < loaded@.len() && loaded@[i as int] < required@[i as int] && (
        forall|k: int| 0 <= k < i ==> loaded@[k] >= required@[k]),
        r is None ==> forall|k: int| 0 <= k < loaded@.len() ==> loaded@[k] >= required@[k],
{
    let mut i: usize = 0;
    while i < loaded.len()
        invariant
            i <= loaded@.len(),
            loaded@.len() == required@.len(),
            forall|k: int| 0 <= k < i ==> loaded@[k] >= required@[k],
        decreases loaded@.len() - i,
    {
        if loaded[i] < required[i] {
            return Some(i);
        }
        i += 1;
    }
    None
}

/// Index `i` of the buffer list breaks the binary-container URI rule:
/// with an embedded binary chunk the first buffer must carry no URI, and
/// every other buffer must carry one.
pub open spec fn uri_violation(has_uri: Seq<bool>, has_bin: bool, i: int) -> bool {
    if i == 0 && has_bin {
        has_uri[0]
    } else {
        !has_uri[i]
    }
}

/// The indices, in increasing order, of the buffers of a binary glTF asset
/// that break the URI rule.  `has_uri[i]` says whether buffer `i` names a
/// URI; `has_bin` says whether the container embeds a binary chunk.
pub fn buffer_uri_errors(has_uri: &Vec<bool>, has_bin: bool) -> (r: Vec<usize>)
    ensures
        forall|j: int| 0 <= j < r@.len() ==> r@[j] < has_uri@.len(),
        forall|j: int|
            0 <= j < r@.len() ==> uri_violation(has_uri@, has_bin, r@[j] as int),
        forall|i: int|
            0 <= i < has_uri@.len() && uri_violation(has_uri@, has_bin, i) ==> r@.contains(
                i as usize,
            ),
        forall|j1: int, j2: int| 0 <= j1 < j2 < r@.len() ==> r@[j1] < r@[j2],
{
    let mut r: Vec<usize> = Vec::new();
    let mut i: usize = 0;
    while i < has_uri.len()
        invariant
            i <= has_uri@.len(),
            forall|j: int| 0 <= j < r@.len() ==> r@[j] < i,
            forall|j: int|
                0 <= j < r@.len() ==> uri_violation(has_uri@, has_bin, r@[j] as int),
            forall|k: int|
                0 <= k < i && uri_violation(has_uri@, has_bin, k) ==> r@.contains(k as usize),
            forall|j1: int, j2: int| 0 <= j1 < j2 < r@.len() ==> r@[j1] < r@[j2],
        decreases has_uri@.len() - i,
    {
        let bad = if i == 0 && has_bin {
            has_uri[0]
        } else {
            !has_uri[i]
        };
        if bad {
            let ghost r_old = r@;
            r.push(i);
            proof {
                assert forall|k: int|
                    0 <= k < i + 1 && uri_violation(has_uri@, has_bin, k) implies r@.contains(
                    k as usize,
                ) by {
                    if k == i {
                        assert(r@[r@.len() - 1] == (k as usize));
                    } else {
                        let j = choose|j: int| 0 <= j < r_old.len() && r_old[j] == (k as usize);
                        assert(r@[j] == (k as usize));
                    }
                }
            }
        }
        i += 1;
    }
    r
}

} // verus!
