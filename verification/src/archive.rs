//! Spectral-archive bookkeeping: the IMZML header and per-spectrum records
//! with their byte offsets into the IBD sidecar, the row-buffered streaming
//! state, the UUID bytes, and the SHA-1 checksum of the payload.
use vstd::prelude::*;
use vstd::pervasive::VecAdditionalExecFns;
use vstd::string::StringExecFns;
use vstd::string::StrSliceExecFns;
use sha1::Digest;
use crate::pixel::MzCode;
use crate::pixel::Pixel;
use crate::pixel::PixelSpan;
use crate::pixel::compress_fold;
use crate::pixel::lemma_compress_counts;
use crate::pixel::sorted_codes;
use crate::pixel::sum_counts;

verus! {

/// A fatal fault while streaming the archive.
#[derive(Clone, Copy, Debug, PartialEq, Eq, Structural)]
pub enum ArchiveError {
    /// The same image row was about to be written twice.
    DuplicateRow,
    /// A row was drained that holds no data.
    MissingRow,
    /// The UUID is not 32 hexadecimal digits.
    InvalidUuid,
    /// An offset, a count or a spectrum left the machine-integer range.
    LimitExceeded,
}

/// What the SHA-1 of a byte string is; the digest is a function of the bytes
/// alone.
pub uninterp spec fn sha1_of(bytes: Seq<u8>) -> Seq<u8>;

/// Relies on `sha1::Sha1` through the `Digest` trait: the digest is 20 bytes
/// and depends only on the input bytes.
#[verifier::external_body]
fn sha1_digest(bytes: &[u8]) -> (r: Vec<u8>)
    ensures
        r@ == sha1_of(bytes@),
        r@.len() == 20,
{
    sha1::Sha1::digest(bytes).to_vec()
}

/// The lowercase hexadecimal character of a value below 16.
pub open spec fn hex_digit(v: u8) -> char {
    if v < 10 {
        ((v + 48) as u8) as char
    } else {
        ((v + 87) as u8) as char
    }
}

/// The lowercase hexadecimal spelling of a byte string, two characters per
/// byte, high nibble first.
pub open spec fn hex_of(bytes: Seq<u8>) -> Seq<char>
    decreases bytes.len(),
{
    if bytes.len() == 0 {
        Seq::empty()
    } else {
        hex_of(bytes.drop_last()) + seq![
            hex_digit(bytes.last() / 16),
            hex_digit(bytes.last() % 16),
        ]
    }
}

/// Relies on `String::from_utf8`: ASCII bytes decode to exactly those
/// characters.
#[verifier::external_body]
fn ascii_to_string(bytes: Vec<u8>) -> (r: String)
    requires
        forall|i: int| 0 <= i < bytes@.len() ==> bytes@[i] < 128,
    ensures
        r@.len() == bytes@.len(),
        forall|i: int| 0 <= i < bytes@.len() ==> r@[i] == bytes@[i] as char,
{
    String::from_utf8(bytes).unwrap_or_default()
}

/// Spells a byte string in lowercase hexadecimal.
pub fn bytes_to_hex(bytes: &[u8]) -> (r: String)
    requires
        bytes@.len() <= usize::MAX / 2,
    ensures
        r@ == hex_of(bytes@),
        r@.len() == 2 * bytes@.len(),
{
    let n = bytes.len();
    let mut out: Vec<u8> = Vec::new();
    let mut i: usize = 0;
    while i < n
        invariant
            n == bytes@.len(),
            n <= usize::MAX / 2,
            0 <= i <= n,
            out@.len() == 2 * i,
            forall|k: int| 0 <= k < out@.len() ==> #[trigger] out@[k] < 128,
            forall|k: int|
                0 <= k < out@.len() ==> (#[trigger] out@[k]) as char == hex_of(bytes@.take(
                    i as int,
                ))[k],
        decreases n - i,
    {
        let b = bytes[i];
        let hi: u8 = b / 16;
        let lo: u8 = b % 16;
        let hc: u8 = if hi < 10 {
            hi + 48
        } else {
            hi + 87
        };
        let lc: u8 = if lo < 10 {
            lo + 48
        } else {
            lo + 87
        };
        out.push(hc);
        out.push(lc);
        proof {
            assert(bytes@.take(i + 1).drop_last() =~= bytes@.take(i as int));
            assert(bytes@.take(i + 1).last() == bytes@[i as int]);
            lemma_hex_of_len(bytes@.take(i as int));
            assert(hc as char == hex_digit(b / 16) && lc as char == hex_digit(b % 16));
        }
        i = i + 1;
    }
    proof {
        assert(bytes@.take(n as int) =~= bytes@);
        lemma_hex_of_len(bytes@);
    }
    let r = ascii_to_string(out);
    proof {
        assert(r@ =~= hex_of(bytes@));
    }
    r
}

/// The hexadecimal spelling is twice as long as the bytes.
pub proof fn lemma_hex_of_len(bytes: Seq<u8>)
    ensures
        hex_of(bytes).len() == 2 * bytes.len(),
    decreases bytes.len(),
{
    if bytes.len() > 0 {
        lemma_hex_of_len(bytes.drop_last());
    }
}

/// The SHA-1 checksum of an IBD payload, spelled as the 40 lowercase
/// hexadecimal characters the IMZML header carries.
pub fn ibd_checksum(bytes: &[u8]) -> (r: String)
    ensures
        r@ == hex_of(sha1_of(bytes@)),
        r@.len() == 40,
{
    let digest = sha1_digest(bytes);
    bytes_to_hex(digest.as_slice())
}

/// The value of an ASCII hexadecimal digit, or 16 for any other byte.
pub open spec fn hex_val(c: u8) -> u8 {
    if 48 <= c <= 57 {
        (c - 48) as u8
    } else if 97 <= c <= 102 {
        (c - 87) as u8
    } else if 65 <= c <= 70 {
        (c - 55) as u8
    } else {
        16
    }
}

/// Turns the 32-digit hexadecimal UUID of the header into the 16 raw bytes
/// that open the IBD file.
pub fn uuid_as_bytes(uuid: &str) -> (r: Result<Vec<u8>, ArchiveError>)
    requires
        uuid.is_ascii(),
        uuid@.len() == 32,
    ensures
        match r {
            Ok(v) => {
                &&& v@.len() == 16
                &&& forall|i: int|
                    0 <= i < 16 ==> #[trigger] v@[i] == hex_val(uuid@[2 * i] as u8) * 16 + hex_val(
                        uuid@[2 * i + 1] as u8,
                    )
                &&& forall|i: int| 0 <= i < 32 ==> hex_val(#[trigger] uuid@[i] as u8) < 16
            },
            Err(e) => {
                &&& e == ArchiveError::InvalidUuid
                &&& exists|i: int| 0 <= i < 32 && hex_val(#[trigger] uuid@[i] as u8) == 16
            },
        },
{
    let mut out: Vec<u8> = Vec::new();
    let mut i: usize = 0;
    while i < 16
        invariant
            uuid.is_ascii(),
            uuid@.len() == 32,
            0 <= i <= 16,
            out@.len() == i,
            forall|k: int|
                0 <= k < i ==> #[trigger] out@[k] == hex_val(uuid@[2 * k] as u8) * 16 + hex_val(
                    uuid@[2 * k + 1] as u8,
                ),
            forall|k: int| 0 <= k < 2 * i ==> hex_val(#[trigger] uuid@[k] as u8) < 16,
        decreases 16 - i,
    {
        let hi = uuid.get_ascii(2 * i);
        let lo = uuid.get_ascii(2 * i + 1);
        let hv: u8 = if 48 <= hi && hi <= 57 {
            hi - 48
        } else if 97 <= hi && hi <= 102 {
            hi - 87
        } else if 65 <= hi && hi <= 70 {
            hi - 55
        } else {
            return Err(ArchiveError::InvalidUuid);
        };
        let lv: u8 = if 48 <= lo && lo <= 57 {
            lo - 48
        } else if 97 <= lo && lo <= 102 {
            lo - 87
        } else if 65 <= lo && lo <= 70 {
            lo - 55
        } else {
            return Err(ArchiveError::InvalidUuid);
        };
        out.push(hv * 16 + lv);
        i = i + 1;
    }
    Ok(out)
}

/// The IMZML header record: every value the XML template interpolates. The
/// checksum starts as a 40-character placeholder so that replacing it with
/// the real 40-character digest keeps every byte offset unchanged.
#[derive(Debug)]
pub struct IMZMLHeader {
    pub uuid: String,
    pub sha1sum: String,
    pub x_pixel_maximum: String,
    pub y_pixel_maximum: String,
    pub run_id: String,
    pub x_pixel_size: String,
    pub y_pixel_size: String,
    pub width_micron: String,
    pub height_micron: String,
    pub number_of_spectra: String,
    pub mz_data_type: String,
    pub obo_codes_mz_data_type: String,
    pub int_data_type: String,
    pub obo_codes_int_data_type: String,
    pub scan_direction: String,
    pub obo_codes_scan_direction: String,
    pub scan_pattern: String,
    pub obo_codes_scan_pattern: String,
    pub scan_type: String,
    pub obo_codes_scan_type: String,
    pub line_scan_direction: String,
    pub obo_codes_line_scan_direction: String,
    pub mode: String,
    pub obo_codes_mode: String,
    pub mz_compression: String,
    pub obo_codes_mz_compression: String,
    pub int_compression: String,
    pub obo_codes_int_compression: String,
    pub polarity: String,
    pub obo_codes_polarity: String,
}

impl IMZMLHeader {
    /// A header for an image of the given dimensions: the caller supplies
    /// the UUID and the rendered dimension values, everything else carries
    /// the fixed instrument vocabulary, and the checksum field holds the
    /// 40-character placeholder.
    pub fn new(
        uuid: String,
        x_pixel_maximum: String,
        y_pixel_maximum: String,
        width_micron: String,
        height_micron: String,
        x_pixel_size: String,
        y_pixel_size: String,
        number_of_spectra: String,
    ) -> (h: IMZMLHeader)
        ensures
            h.uuid == uuid,
            h.sha1sum@.len() == 40,
            h.sha1sum@ == "a_dummy_checksum_that_should_be_replaced"@,
            h.x_pixel_maximum == x_pixel_maximum,
            h.y_pixel_maximum == y_pixel_maximum,
            h.width_micron == width_micron,
            h.height_micron == height_micron,
            h.x_pixel_size == x_pixel_size,
            h.y_pixel_size == y_pixel_size,
            h.number_of_spectra == number_of_spectra,
            h.run_id@ == "Experiment0"@,
            h.mz_data_type@ == "32-bit float"@,
            h.obo_codes_mz_data_type@ == "MS:1000521"@,
            h.int_data_type@ == "16-bit integer"@,
            h.obo_codes_int_data_type@ == "IMS:1100001"@,
            h.scan_direction@ == "top down"@,
            h.obo_codes_scan_direction@ == "IMS:1000401"@,
            h.scan_pattern@ == "meandering"@,
            h.obo_codes_scan_pattern@ == "IMS:1000410"@,
            h.scan_type@ == "horizontal line scan"@,
            h.obo_codes_scan_type@ == "IMS:1000480"@,
            h.line_scan_direction@ == "linescan left right"@,
            h.obo_codes_line_scan_direction@ == "IMS:1000491"@,
            h.mode@ == "processed"@,
            h.obo_codes_mode@ == "IMS:1000031"@,
            h.mz_compression@ == "no compression"@,
            h.obo_codes_mz_compression@ == "MS:1000576"@,
            h.int_compression@ == "no compression"@,
            h.obo_codes_int_compression@ == "MS:1000576"@,
            h.polarity@ == "positive scan"@,
            h.obo_codes_polarity@ == "MS:1000130"@,
    {
        proof {
            reveal_strlit("a_dummy_checksum_that_should_be_replaced");
        }
        IMZMLHeader {
            uuid,
            sha1sum: String::from_str("a_dummy_checksum_that_should_be_replaced"),
            x_pixel_maximum,
            y_pixel_maximum,
            run_id: String::from_str("Experiment0"),
            x_pixel_size,
            y_pixel_size,
            width_micron,
            height_micron,
            number_of_spectra,
            mz_data_type: String::from_str("32-bit float"),
            obo_codes_mz_data_type: String::from_str("MS:1000521"),
            int_data_type: String::from_str("16-bit integer"),
            obo_codes_int_data_type: String::from_str("IMS:1100001"),
            scan_direction: String::from_str("top down"),
            obo_codes_scan_direction: String::from_str("IMS:1000401"),
            scan_pattern: String::from_str("meandering"),
            obo_codes_scan_pattern: String::from_str("IMS:1000410"),
            scan_type: String::from_str("horizontal line scan"),
            obo_codes_scan_type: String::from_str("IMS:1000480"),
            line_scan_direction: String::from_str("linescan left right"),
            obo_codes_line_scan_direction: String::from_str("IMS:1000491"),
            mode: String::from_str("processed"),
            obo_codes_mode: String::from_str("IMS:1000031"),
            mz_compression: String::from_str("no compression"),
            obo_codes_mz_compression: String::from_str("MS:1000576"),
            int_compression: String::from_str("no compression"),
            obo_codes_int_compression: String::from_str("MS:1000576"),
            polarity: String::from_str("positive scan"),
            obo_codes_polarity: String::from_str("MS:1000130"),
        }
    }

    /// Replaces the checksum placeholder with the real digest; both are 40
    /// characters, so the rewritten header keeps its byte length.
    pub fn set_checksum(&mut self, sha1_hex: String)
        requires
            sha1_hex@.len() == 40,
        ensures
            final(self).sha1sum == sha1_hex,
            final(self).sha1sum@.len() == 40,
            final(self).uuid == old(self).uuid,
            final(self).number_of_spectra == old(self).number_of_spectra,
            final(self).x_pixel_maximum == old(self).x_pixel_maximum,
            final(self).y_pixel_maximum == old(self).y_pixel_maximum,
    {
        self.sha1sum = sha1_hex;
    }
}

/// One spectrum's metadata in the IMZML index: its position in the image and
/// where its two binary arrays sit inside the IBD sidecar.
#[derive(Clone, Copy, Debug, PartialEq, Eq, Structural)]
pub struct IMZMLSpectrum {
    /// Consecutive spectrum number, from 0.
    pub index: usize,
    /// Total ion current of the spectrum.
    pub spectrum_sum: u16,
    /// 1-based image column.
    pub pixel_column: u32,
    /// 1-based image row.
    pub pixel_row: u32,
    /// Number of m/z values.
    pub mz_len: usize,
    /// Byte offset of the m/z array in the IBD file.
    pub mz_offset: usize,
    /// Encoded byte length of the m/z array (4 bytes per value).
    pub mz_enc_len: usize,
    /// Number of intensity values.
    pub int_len: usize,
    /// Byte offset of the intensity array in the IBD file.
    pub int_offset: usize,
    /// Encoded byte length of the intensity array (2 bytes per value).
    pub int_enc_len: usize,
}

/// Whether one spectrum's bookkeeping fits the machine integers from the
/// given cursor position: image coordinates inside `u32`, one more index
/// available, and both encoded arrays inside `usize` from the offset.
pub open spec fn spectrum_fits(
    cursor: ArchiveCursor,
    mz_len: int,
    int_len: int,
    col: int,
    row: int,
) -> bool {
    &&& col < u32::MAX
    &&& row < u32::MAX
    &&& cursor.index < usize::MAX
    &&& mz_len <= usize::MAX / 4
    &&& int_len <= usize::MAX / 4
    &&& cursor.offset + 4 * mz_len <= usize::MAX
    &&& cursor.offset + 4 * mz_len + 2 * int_len <= usize::MAX
}

/// The running position of the archive writer inside the IBD file: the next
/// spectrum index and the byte offset where its arrays will land, starting
/// past the 16 UUID bytes.
#[derive(Clone, Copy, Debug, PartialEq, Eq, Structural)]
pub struct ArchiveCursor {
    /// Index the next spectrum will carry.
    pub index: usize,
    /// IBD byte offset the next spectrum's m/z array will start at.
    pub offset: usize,
}

impl ArchiveCursor {
    /// A cursor at the start of the payload, just past the UUID bytes.
    pub fn new() -> (c: ArchiveCursor)
        ensures
            c.index == 0,
            c.offset == 16,
    {
        ArchiveCursor { index: 0, offset: 16 }
    }

    /// Plans one spectrum: four bytes per m/z value then two per count, laid
    /// end to end from the current offset, which advances past them.
    pub fn write_spectrum(
        &mut self,
        mzs: &Vec<MzCode>,
        ints: &Vec<i16>,
        col: usize,
        row: usize,
    ) -> (r: Result<IMZMLSpectrum, ArchiveError>)
        requires
            forall|k: int| 0 <= k < ints@.len() ==> #[trigger] ints@[k] > 0,
            0 <= sum_counts(ints@) <= u16::MAX,
        ensures
            r is Ok <==> spectrum_fits(
                *old(self),
                mzs@.len() as int,
                ints@.len() as int,
                col as int,
                row as int,
            ),
            match r {
                Ok(s) => {
                    &&& s.index == old(self).index
                    &&& s.spectrum_sum == sum_counts(ints@)
                    &&& s.pixel_column == col + 1
                    &&& s.pixel_row == row + 1
                    &&& s.mz_len == mzs@.len()
                    &&& s.mz_offset == old(self).offset
                    &&& s.mz_enc_len == 4 * mzs@.len()
                    &&& s.int_len == ints@.len()
                    &&& s.int_offset == old(self).offset + 4 * mzs@.len()
                    &&& s.int_enc_len == 2 * ints@.len()
                    &&& final(self).offset == s.int_offset + s.int_enc_len
                    &&& final(self).index == old(self).index + 1
                },
                Err(e) => {
                    &&& e == ArchiveError::LimitExceeded
                    &&& *final(self) == *old(self)
                },
            },
    {
        if col >= (u32::MAX as usize) || row >= (u32::MAX as usize) {
            return Err(ArchiveError::LimitExceeded);
        }
        if self.index == usize::MAX {
            return Err(ArchiveError::LimitExceeded);
        }
        if mzs.len() > (usize::MAX / 4) || ints.len() > (usize::MAX / 4) {
            return Err(ArchiveError::LimitExceeded);
        }
        let mz_enc_len = 4 * mzs.len();
        let int_enc_len = 2 * ints.len();
        if usize::MAX - mz_enc_len < self.offset || usize::MAX - int_enc_len < self.offset
            + mz_enc_len {
            return Err(ArchiveError::LimitExceeded);
        }
        let mut total: u16 = 0;
        let n = ints.len();
        let mut k: usize = 0;
        while k < n
            invariant
                n == ints@.len(),
                0 <= k <= n,
                forall|j: int| 0 <= j < n ==> #[trigger] ints@[j] > 0,
                0 <= sum_counts(ints@) <= u16::MAX,
                total == sum_counts(ints@.take(k as int)),
                total <= sum_counts(ints@),
            decreases n - k,
        {
            proof {
                assert(ints@.take(k + 1).drop_last() =~= ints@.take(k as int));
                assert(ints@.take(k + 1).last() == ints@[k as int]);
                lemma_sum_counts_prefix(ints@, k + 1);
            }
            total = total + (ints[k] as u16);
            k = k + 1;
        }
        proof {
            assert(ints@.take(n as int) =~= ints@);
        }
        let spectrum = IMZMLSpectrum {
            index: self.index,
            spectrum_sum: total,
            pixel_column: (col + 1) as u32,
            pixel_row: (row + 1) as u32,
            mz_len: mzs.len(),
            mz_offset: self.offset,
            mz_enc_len,
            int_len: ints.len(),
            int_offset: self.offset + mz_enc_len,
            int_enc_len,
        };
        self.offset = self.offset + mz_enc_len + int_enc_len;
        self.index = self.index + 1;
        Ok(spectrum)
    }
}

/// Whether `(mzs, ints)` is the compressed spectrum of some sorted ordering
/// of the recorded values `codes`: the payload a drained pixel emits.
pub open spec fn pixel_spectrum_of(codes: Seq<MzCode>, mzs: Seq<MzCode>, ints: Seq<i16>) -> bool {
    exists|s: Seq<MzCode>|
        #![auto]
        sorted_codes(s) && s.to_multiset() == codes.to_multiset() && mzs == compress_fold(
            s,
            s.len() as int,
        ).0 && ints == compress_fold(s, s.len() as int).1
}

/// The row-buffered streaming state of the archive: one optional live span
/// per image row, and a ledger of the rows already flushed.
pub struct SpanTracker {
    /// The in-flight rows; `None` until a hit lands in a row, and again
    /// after the row is drained.
    pub spans: Vec<Option<PixelSpan>>,
    /// Which rows have already been written; writing one twice is fatal.
    pub written: Vec<bool>,
    /// Number of image columns, the width of every span.
    pub cols: usize,
}

impl SpanTracker {
    /// Shape of a healthy tracker: one ledger entry per row, and every live
    /// span as wide as the image with every pixel inside the count bound
    /// the spectrum encoder can carry.
    pub open spec fn wf(self) -> bool {
        &&& self.spans@.len() == self.written@.len()
        &&& forall|r: int|
            0 <= r < self.spans@.len() && (#[trigger] self.spans@[r]) is Some ==> {
                &&& self.spans@[r]->0.pixels@.len() == self.cols
                &&& forall|c: int|
                    0 <= c < self.cols ==> (#[trigger] self.spans@[r]->0.pixels@[c]).codes@.len()
                        <= 32767
            }
    }

    /// A tracker for an image of the given width and height, with no live
    /// rows and nothing written.
    pub fn new(cols: usize, rows: usize) -> (t: SpanTracker)
        ensures
            t.wf(),
            t.cols == cols,
            t.spans@.len() == rows,
            t.written@.len() == rows,
            forall|r: int| 0 <= r < rows ==> (#[trigger] t.spans@[r]) is None,
            forall|r: int| 0 <= r < rows ==> !(#[trigger] t.written@[r]),
    {
        let mut spans: Vec<Option<PixelSpan>> = Vec::new();
        let mut written: Vec<bool> = Vec::new();
        let mut i: usize = 0;
        while i < rows
            invariant
                0 <= i <= rows,
                spans@.len() == i,
                written@.len() == i,
                forall|r: int| 0 <= r < i ==> (#[trigger] spans@[r]) is None,
                forall|r: int| 0 <= r < i ==> !(#[trigger] written@[r]),
            decreases rows - i,
        {
            spans.push(None);
            written.push(false);
            i = i + 1;
        }
        SpanTracker { spans, written, cols }
    }

    /// Records one m/z value in the pixel at `(col, row)`, opening the row's
    /// span if this is its first hit. A pixel that already carries as many
    /// values as a spectrum can count refuses the hit.
    pub fn add_hit(&mut self, row: usize, col: usize, code: MzCode) -> (r: Result<
        (),
        ArchiveError,
    >)
        requires
            old(self).wf(),
            row < old(self).spans@.len(),
            col < old(self).cols,
        ensures
            final(self).wf(),
            final(self).cols == old(self).cols,
            final(self).written@ == old(self).written@,
            final(self).spans@.len() == old(self).spans@.len(),
            forall|r2: int|
                0 <= r2 < old(self).spans@.len() && r2 != row ==> final(self).spans@[r2] == old(
                    self,
                ).spans@[r2],
            r is Ok ==> {
                &&& final(self).spans@[row as int] is Some
                &&& final(self).spans@[row as int]->0.empty_pass_count == 0
                &&& final(self).spans@[row as int]->0.pixel_added
                &&& final(self).spans@[row as int]->0.pixels@[col as int].codes@ == (if old(
                    self,
                ).spans@[row as int] is Some {
                    old(self).spans@[row as int]->0.pixels@[col as int].codes@
                } else {
                    Seq::<MzCode>::empty()
                }).push(code)
                &&& forall|c: int|
                    0 <= c < old(self).cols && c != col ==> {
                        &&& (old(self).spans@[row as int] is Some ==> final(self).spans@[row as int]->0.pixels@[c]
                            == old(self).spans@[row as int]->0.pixels@[c])
                        &&& (old(self).spans@[row as int] is None ==> (#[trigger] final(self).spans@[row as int]->0.pixels@[c]).codes@.len()
                            == 0)
                    }
            },
            r is Ok <==> (old(self).spans@[row as int] is None || old(
                self,
            ).spans@[row as int]->0.pixels@[col as int].codes@.len() < 32767),
            r is Err ==> r == Err::<(), ArchiveError>(ArchiveError::LimitExceeded)
                && final(self).spans@ == old(self).spans@,
    {
        if self.spans[row].is_none() {
            let fresh = PixelSpan::empty(self.cols);
            self.spans.set(row, Some(fresh));
        }
        let has_room: bool = match &self.spans[row] {
            Some(span) => span.pixels[col].codes.len() < 32767,
            None => false,
        };
        if !has_room {
            return Err(ArchiveError::LimitExceeded);
        }
        let mut taken: Option<PixelSpan> = None;
        self.spans.set_and_swap(row, &mut taken);
        let mut span = taken.unwrap();
        span.add_mz(code, col);
        self.spans.set(row, Some(span));
        Ok(())
    }

    /// Closes a pass over every live row: rows untouched since the last
    /// pass move one step closer to being flushed.
    pub fn end_pass(&mut self)
        requires
            old(self).wf(),
        ensures
            final(self).wf(),
            final(self).cols == old(self).cols,
            final(self).written@ == old(self).written@,
            final(self).spans@.len() == old(self).spans@.len(),
            forall|r: int|
                0 <= r < old(self).spans@.len() ==> ((#[trigger] final(self).spans@[r]) is Some
                    <==> old(self).spans@[r] is Some),
            forall|r: int|
                0 <= r < old(self).spans@.len() && old(self).spans@[r] is Some ==> {
                    let s0 = old(self).spans@[r]->0;
                    let s1 = (#[trigger] final(self).spans@[r])->0;
                    &&& s1.pixels@ == s0.pixels@
                    &&& !s1.pixel_added
                    &&& s1.empty_pass_count == if s0.pixel_added {
                        0int
                    } else if s0.empty_pass_count < usize::MAX {
                        s0.empty_pass_count + 1
                    } else {
                        usize::MAX as int
                    }
                },
    {
        let n = self.spans.len();
        let mut r: usize = 0;
        while r < n
            invariant
                n == self.spans@.len(),
                0 <= r <= n,
                self.wf(),
                self.cols == old(self).cols,
                self.written@ == old(self).written@,
                forall|r2: int|
                    r <= r2 < n ==> #[trigger] self.spans@[r2] == old(self).spans@[r2],
                forall|r2: int|
                    0 <= r2 < r ==> ((#[trigger] self.spans@[r2]) is Some <==> old(
                        self,
                    ).spans@[r2] is Some),
                forall|r2: int|
                    0 <= r2 < r && old(self).spans@[r2] is Some ==> {
                        let s0 = old(self).spans@[r2]->0;
                        let s1 = (#[trigger] self.spans@[r2])->0;
                        &&& s1.pixels@ == s0.pixels@
                        &&& !s1.pixel_added
                        &&& s1.empty_pass_count == if s0.pixel_added {
                            0int
                        } else if s0.empty_pass_count < usize::MAX {
                            s0.empty_pass_count + 1
                        } else {
                            usize::MAX as int
                        }
                    },
            decreases n - r,
        {
            if self.spans[r].is_some() {
                let mut taken: Option<PixelSpan> = None;
                self.spans.set_and_swap(r, &mut taken);
                let mut span = taken.unwrap();
                span.update_end_pass();
                self.spans.set(r, Some(span));
            }
            r = r + 1;
        }
    }

    /// The rows ready to flush, in ascending order: live rows that two
    /// finished passes in a row have left untouched.
    pub fn finished_rows(&self) -> (r: Vec<usize>)
        ensures
            forall|k1: int, k2: int| 0 <= k1 < k2 < r@.len() ==> r@[k1] < r@[k2],
            forall|k: int|
                0 <= k < r@.len() ==> {
                    let row = #[trigger] r@[k] as int;
                    &&& row < self.spans@.len()
                    &&& self.spans@[row] is Some
                    &&& self.spans@[row]->0.empty_pass_count > 2
                },
            forall|row: int|
                0 <= row < self.spans@.len() && (#[trigger] self.spans@[row]) is Some
                    && self.spans@[row]->0.empty_pass_count > 2 ==> exists|k: int|
                    0 <= k < r@.len() && #[trigger] r@[k] == row,
    {
        let n = self.spans.len();
        let mut out: Vec<usize> = Vec::new();
        let mut row: usize = 0;
        while row < n
            invariant
                n == self.spans@.len(),
                0 <= row <= n,
                forall|k1: int, k2: int| 0 <= k1 < k2 < out@.len() ==> out@[k1] < out@[k2],
                forall|k: int| 0 <= k < out@.len() ==> #[trigger] out@[k] < row,
                forall|k: int|
                    0 <= k < out@.len() ==> {
                        let r2 = #[trigger] out@[k] as int;
                        &&& self.spans@[r2] is Some
                        &&& self.spans@[r2]->0.empty_pass_count > 2
                    },
                forall|r2: int|
                    0 <= r2 < row && (#[trigger] self.spans@[r2]) is Some
                        && self.spans@[r2]->0.empty_pass_count > 2 ==> exists|k: int|
                        0 <= k < out@.len() && #[trigger] out@[k] == r2,
            decreases n - row,
        {
            let ghost pre_out = out@;
            let keep: bool = match &self.spans[row] {
                Some(span) => span.empty_pass_count > 2,
                None => false,
            };
            if keep {
                out.push(row);
            }
            proof {
                assert forall|r2: int|
                    0 <= r2 < row + 1 && (#[trigger] self.spans@[r2]) is Some
                        && self.spans@[r2]->0.empty_pass_count > 2 implies exists|k: int|
                    0 <= k < out@.len() && #[trigger] out@[k] == r2 by {
                    if r2 == row && keep {
                        assert(out@[out@.len() - 1] == r2);
                    } else {
                        let k = choose|k: int| 0 <= k < pre_out.len() && #[trigger] pre_out[k] == r2;
                        assert(out@[k] == r2);
                    }
                }
            }
            row = row + 1;
        }
        out
    }

    /// Every live row, in ascending order: the final drain takes them all.
    pub fn live_rows(&self) -> (r: Vec<usize>)
        ensures
            forall|k1: int, k2: int| 0 <= k1 < k2 < r@.len() ==> r@[k1] < r@[k2],
            forall|k: int|
                0 <= k < r@.len() ==> (#[trigger] r@[k]) < self.spans@.len()
                    && self.spans@[r@[k] as int] is Some,
            forall|row: int|
                0 <= row < self.spans@.len() && (#[trigger] self.spans@[row]) is Some ==> exists|
                k: int,
            | 0 <= k < r@.len() && #[trigger] r@[k] == row,
    {
        let n = self.spans.len();
        let mut out: Vec<usize> = Vec::new();
        let mut row: usize = 0;
        while row < n
            invariant
                n == self.spans@.len(),
                0 <= row <= n,
                forall|k1: int, k2: int| 0 <= k1 < k2 < out@.len() ==> out@[k1] < out@[k2],
                forall|k: int| 0 <= k < out@.len() ==> #[trigger] out@[k] < row,
                forall|k: int|
                    0 <= k < out@.len() ==> self.spans@[#[trigger] out@[k] as int] is Some,
                forall|r2: int|
                    0 <= r2 < row && (#[trigger] self.spans@[r2]) is Some ==> exists|k: int|
                        0 <= k < out@.len() && #[trigger] out@[k] == r2,
            decreases n - row,
        {
            let ghost pre_out = out@;
            if self.spans[row].is_some() {
                out.push(row);
            }
            proof {
                assert forall|r2: int|
                    0 <= r2 < row + 1 && (#[trigger] self.spans@[r2]) is Some implies exists|
                k: int,
                | 0 <= k < out@.len() && #[trigger] out@[k] == r2 by {
                    if r2 == row {
                        assert(out@[out@.len() - 1] == r2);
                    } else {
                        let k = choose|k: int| 0 <= k < pre_out.len() && #[trigger] pre_out[k] == r2;
                        assert(out@[k] == r2);
                    }
                }
            }
            row = row + 1;
        }
        out
    }

    /// Flushes one row: each of its pixels collapses to a sorted spectrum
    /// and receives consecutive indices and back-to-back byte ranges from
    /// the cursor, left to right. Draining a row twice, or one that holds
    /// nothing, is an error; a row is gone from the tracker once drained.
    pub fn drain_row(&mut self, row: usize, cursor: &mut ArchiveCursor) -> (r: Result<
        Vec<(IMZMLSpectrum, Vec<MzCode>, Vec<i16>)>,
        ArchiveError,
    >)
        requires
            old(self).wf(),
            row < old(self).spans@.len(),
        ensures
            final(self).wf(),
            final(self).cols == old(self).cols,
            final(self).spans@.len() == old(self).spans@.len(),
            final(self).written@.len() == old(self).written@.len(),
            (old(self).written@[row as int] == false && old(self).spans@[row as int] is Some
                && row < u32::MAX && old(self).cols < u32::MAX && old(cursor).index + old(
                self,
            ).cols <= usize::MAX && old(cursor).offset + 196_602 * old(self).cols <= usize::MAX)
                ==> r is Ok,
            match r {
                Ok(specs) => {
                    &&& old(self).written@[row as int] == false
                    &&& old(self).spans@[row as int] is Some
                    &&& final(self).written@ == old(self).written@.update(row as int, true)
                    &&& final(self).spans@ == old(self).spans@.update(
                        row as int,
                        None::<PixelSpan>,
                    )
                    &&& specs@.len() == old(self).cols
                    &&& forall|k: int|
                        0 <= k < specs@.len() ==> {
                            let s = (#[trigger] specs@[k]).0;
                            &&& s.index == old(cursor).index + k
                            &&& s.pixel_column == k + 1
                            &&& s.pixel_row == row + 1
                            &&& s.int_offset == s.mz_offset + s.mz_enc_len
                            &&& s.mz_enc_len == 4 * s.mz_len
                            &&& s.int_enc_len == 2 * s.int_len
                        }
                    &&& (specs@.len() > 0 ==> specs@[0].0.mz_offset == old(cursor).offset)
                    &&& forall|k: int|
                        0 <= k < specs@.len() - 1 ==> (#[trigger] specs@[k + 1]).0.mz_offset
                            == specs@[k].0.int_offset + specs@[k].0.int_enc_len
                    &&& forall|k: int|
                        0 <= k < specs@.len() ==> (#[trigger] specs@[k]).0.mz_len
                            == specs@[k].1@.len() && specs@[k].0.int_len == specs@[k].2@.len()
                    &&& forall|k: int|
                        0 <= k < specs@.len() ==> pixel_spectrum_of(
                            old(self).spans@[row as int]->0.pixels@[k].codes@,
                            (#[trigger] specs@[k]).1@,
                            specs@[k].2@,
                        )
                    &&& final(cursor).index == old(cursor).index + old(self).cols
                },
                Err(ArchiveError::DuplicateRow) => {
                    &&& old(self).written@[row as int]
                    &&& *final(self) == *old(self)
                    &&& *final(cursor) == *old(cursor)
                },
                Err(ArchiveError::MissingRow) => {
                    &&& old(self).written@[row as int] == false
                    &&& old(self).spans@[row as int] is None
                    &&& *final(self) == *old(self)
                    &&& *final(cursor) == *old(cursor)
                },
                Err(ArchiveError::LimitExceeded) => {
                    &&& old(self).written@[row as int] == false
                    &&& old(self).spans@[row as int] is Some
                    &&& final(self).written@ == old(self).written@.update(row as int, true)
                    &&& final(self).spans@ == old(self).spans@.update(
                        row as int,
                        None::<PixelSpan>,
                    )
                    &&& old(cursor).index <= final(cursor).index < old(cursor).index + old(
                        self,
                    ).cols
                    &&& old(cursor).offset <= final(cursor).offset
                },
                Err(ArchiveError::InvalidUuid) => false,
            },
    {
        if self.written[row] {
            return Err(ArchiveError::DuplicateRow);
        }
        if self.spans[row].is_none() {
            return Err(ArchiveError::MissingRow);
        }
        self.written.set(row, true);
        let mut taken: Option<PixelSpan> = None;
        self.spans.set_and_swap(row, &mut taken);
        let mut span = taken.unwrap();
        let cols = self.cols;
        let mut specs: Vec<(IMZMLSpectrum, Vec<MzCode>, Vec<i16>)> = Vec::new();
        let mut col: usize = 0;
        while col < cols
            invariant
                cols == old(self).cols,
                self.wf(),
                self.cols == old(self).cols,
                self.spans@ == old(self).spans@.update(row as int, None::<PixelSpan>),
                self.written@ == old(self).written@.update(row as int, true),
                row < old(self).spans@.len(),
                old(self).written@.len() == old(self).spans@.len(),
                old(self).written@[row as int] == false,
                old(self).spans@[row as int] is Some,
                span.pixels@.len() == cols,
                forall|c: int|
                    0 <= c < cols ==> (#[trigger] span.pixels@[c]).codes@.len() <= 32767,
                0 <= col <= cols,
                specs@.len() == col,
                cursor.index == old(cursor).index + col,
                old(cursor).offset <= cursor.offset <= old(cursor).offset + 196_602 * col,
                forall|c: int|
                    col <= c < cols ==> #[trigger] span.pixels@[c] == old(
                        self,
                    ).spans@[row as int]->0.pixels@[c],
                forall|k: int|
                    0 <= k < specs@.len() ==> (#[trigger] specs@[k]).0.mz_len == specs@[k].1@.len()
                        && specs@[k].0.int_len == specs@[k].2@.len(),
                forall|k: int|
                    0 <= k < specs@.len() ==> pixel_spectrum_of(
                        old(self).spans@[row as int]->0.pixels@[k].codes@,
                        (#[trigger] specs@[k]).1@,
                        specs@[k].2@,
                    ),
                forall|k: int|
                    0 <= k < specs@.len() ==> {
                        let s = (#[trigger] specs@[k]).0;
                        &&& s.index == old(cursor).index + k
                        &&& s.pixel_column == k + 1
                        &&& s.pixel_row == row + 1
                        &&& s.int_offset == s.mz_offset + s.mz_enc_len
                        &&& s.mz_enc_len == 4 * s.mz_len
                        &&& s.int_enc_len == 2 * s.int_len
                    },
                specs@.len() > 0 ==> specs@[0].0.mz_offset == old(cursor).offset,
                specs@.len() == 0 ==> cursor.offset == old(cursor).offset,
                specs@.len() > 0 ==> cursor.offset == specs@[specs@.len() - 1].0.int_offset
                    + specs@[specs@.len() - 1].0.int_enc_len,
                forall|k: int|
                    0 <= k < specs@.len() - 1 ==> (#[trigger] specs@[k + 1]).0.mz_offset
                        == specs@[k].0.int_offset + specs@[k].0.int_enc_len,
            decreases cols - col,
        {
            let mut pixel_taken = Pixel::empty();
            span.pixels.set_and_swap(col, &mut pixel_taken);
            let ghost pre_codes = pixel_taken.codes@;
            let (mzs, ints) = pixel_taken.to_vecs();
            proof {
                lemma_compress_counts(pixel_taken.codes@, pre_codes.len() as int);
                assert(mzs@.len() <= 32767 && ints@.len() <= 32767);
            }
            let ghost pre_cursor = *cursor;
            let ghost pre_specs = specs@;
            match cursor.write_spectrum(&mzs, &ints, col, row) {
                Ok(spec) => {
                    specs.push((spec, mzs, ints));
                    proof {
                        let s = pixel_taken.codes@;
                        assert(sorted_codes(s) && s.to_multiset() == old(
                            self,
                        ).spans@[row as int]->0.pixels@[col as int].codes@.to_multiset() && specs@[
                        specs@.len() - 1].1@ == compress_fold(s, s.len() as int).0 && specs@[specs@.len()
                            - 1].2@ == compress_fold(s, s.len() as int).1);
                        assert forall|k: int| 0 <= k < specs@.len() implies pixel_spectrum_of(
                            old(self).spans@[row as int]->0.pixels@[k].codes@,
                            (#[trigger] specs@[k]).1@,
                            specs@[k].2@,
                        ) by {
                            if k < specs@.len() - 1 {
                                assert(specs@[k] == pre_specs[k]);
                            } else {
                                assert(specs@[k].1@ == compress_fold(s, s.len() as int).0);
                            }
                        }
                    }
                },
                Err(e) => {
                    proof {
                        // the spectrum always fits while the row budget holds
                        if old(self).written@[row as int] == false && old(
                            self,
                        ).spans@[row as int] is Some && row < u32::MAX && old(self).cols < u32::MAX
                            && old(cursor).index + old(self).cols <= usize::MAX && old(
                            cursor,
                        ).offset + 196_602 * old(self).cols <= usize::MAX {
                            assert(pre_cursor.offset + 4 * mzs@.len() + 2 * ints@.len() <= old(
                                cursor,
                            ).offset + 196_602 * col + 196_602);
                            assert(spectrum_fits(
                                pre_cursor,
                                mzs@.len() as int,
                                ints@.len() as int,
                                col as int,
                                row as int,
                            ));
                        }
                    }
                    return Err(e);
                },
            }
            proof {
                assert(span.pixels@[col as int].codes@.len() == 0);
            }
            col = col + 1;
        }
        Ok(specs)
    }
}

/// A prefix of positive counts never outweighs the whole.
proof fn lemma_sum_counts_prefix(ints: Seq<i16>, k: int)
    requires
        0 <= k <= ints.len(),
        forall|j: int| 0 <= j < ints.len() ==> #[trigger] ints[j] > 0,
    ensures
        sum_counts(ints.take(k)) <= sum_counts(ints),
        sum_counts(ints.take(k)) >= 0,
    decreases ints.len(),
{
    if k == ints.len() {
        assert(ints.take(k) =~= ints);
        lemma_sum_counts_nonneg(ints);
    } else {
        assert(ints.drop_last().take(k) =~= ints.take(k));
        assert(forall|j: int|
            0 <= j < ints.drop_last().len() ==> #[trigger] ints.drop_last()[j] > 0);
        lemma_sum_counts_prefix(ints.drop_last(), k);
    }
}

/// Positive counts sum to something nonnegative.
proof fn lemma_sum_counts_nonneg(ints: Seq<i16>)
    requires
        forall|j: int| 0 <= j < ints.len() ==> #[trigger] ints[j] > 0,
    ensures
        sum_counts(ints) >= 0,
    decreases ints.len(),
{
    if ints.len() > 0 {
        assert(forall|j: int|
            0 <= j < ints.drop_last().len() ==> #[trigger] ints.drop_last()[j] > 0);
        lemma_sum_counts_nonneg(ints.drop_last());
    }
}

} // verus!
