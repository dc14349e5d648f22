//! Media handling that is pure computation: sniffing image dimensions
//! from PNG and JPEG headers, deriving the stored file name, and turning
//! a base64 payload into an upload plan. Writing the bytes out and
//! recording the asset belong to the surrounding program.

use crate::text::{has_prefix, push_char, str_has_prefix};
use crate::trusted::{b64_decoded, decode_base64};
use vstd::prelude::*;
use vstd::string::{StrSliceExecFns, StringExecFns};

verus! {

/// The 32-bit big-endian value at `i`.
pub open spec fn be32_at(d: Seq<u8>, i: int) -> int {
    (d[i] as int) * 0x1000000 + (d[i + 1] as int) * 0x10000 + (d[i + 2] as int) * 0x100 + (d[i
        + 3] as int)
}

/// The 16-bit big-endian value at `i`.
pub open spec fn be16_at(d: Seq<u8>, i: int) -> int {
    (d[i] as int) * 0x100 + (d[i + 1] as int)
}

/// The scan for a JPEG start-of-frame marker from offset `i`: the
/// (width, height) of the first SOF0, SOF1 or SOF2 segment, walking the
/// segment lengths, giving up at end-of-image or start-of-scan.
pub open spec fn jpeg_scan(d: Seq<u8>, i: int) -> Option<(int, int)>
    decreases d.len() - i,
{
    if i >= d.len() - 9 {
        None
    } else if d[i] == 0xff {
        let m = d[i + 1];
        if 0xc0 <= m && m <= 0xc2 {
            Some((be16_at(d, i + 7), be16_at(d, i + 5)))
        } else if m == 0xd9 || m == 0xda {
            None
        } else if i + 2 + be16_at(d, i + 2) >= d.len() - 9 {
            None
        } else {
            jpeg_scan(d, i + 2 + be16_at(d, i + 2))
        }
    } else {
        jpeg_scan(d, i + 1)
    }
}

/// The dimensions readable from the image header: the PNG IHDR fields
/// for PNG, the first start-of-frame segment for JPEG, nothing
/// otherwise or for data shorter than a PNG header.
pub open spec fn image_dims(d: Seq<u8>) -> Option<(int, int)> {
    if d.len() < 24 {
        None
    } else if d[0] == 0x89 && d[1] == 0x50 && d[2] == 0x4e && d[3] == 0x47 {
        Some((be32_at(d, 16), be32_at(d, 20)))
    } else if d[0] == 0xff && d[1] == 0xd8 {
        jpeg_scan(d, 2)
    } else {
        None
    }
}

fn read_be32(d: &[u8], i: usize) -> (r: u32)
    requires
        i + 4 <= d@.len(),
    ensures
        r as int == be32_at(d@, i as int),
{
    (d[i] as u32) * 0x1000000 + (d[i + 1] as u32) * 0x10000 + (d[i + 2] as u32) * 0x100 + (d[i
        + 3] as u32)
}

fn read_be16(d: &[u8], i: usize) -> (r: u16)
    requires
        i + 2 <= d@.len(),
    ensures
        r as int == be16_at(d@, i as int),
{
    (d[i] as u16) * 0x100 + (d[i + 1] as u16)
}

/// Read the pixel dimensions from a PNG or JPEG header, as the stored
/// width and height columns; data in any other format has none.
pub fn get_image_dimensions(data: &[u8]) -> (r: Option<(Option<i32>, Option<i32>)>)
    ensures
        (r is Some) == (image_dims(data@) is Some),
        r matches Some(p) ==> (image_dims(data@) matches Some(wh) ==> ((p.0 matches Some(w)
            && ((w as u32) as int == wh.0)) && (p.1 matches Some(h) && ((h as u32) as int
            == wh.1)))),
{
    if data.len() < 24 {
        return None;
    }
    if data[0] == 0x89 && data[1] == 0x50 && data[2] == 0x4e && data[3] == 0x47 {
        let wu = read_be32(data, 16);
        let hu = read_be32(data, 20);
        let w: i32 = #[verifier::truncate] (wu as i32);
        let h: i32 = #[verifier::truncate] (hu as i32);
        proof {
            assert(wu as i32 as u32 == wu) by (bit_vector);
            assert(hu as i32 as u32 == hu) by (bit_vector);
        }
        return Some((Some(w), Some(h)));
    }
    if data[0] == 0xff && data[1] == 0xd8 {
        let mut i: usize = 2;
        while i < data.len() - 9
            invariant
                2 <= i,
                24 <= data@.len(),
                data@[0] == 0xff,
                data@[1] == 0xd8,
                !(data@[0] == 0x89 && data@[1] == 0x50 && data@[2] == 0x4e && data@[3] == 0x47),
                jpeg_scan(data@, 2) == jpeg_scan(data@, i as int),
            decreases data@.len() - i,
        {
            if data[i] == 0xff {
                let m = data[i + 1];
                if 0xc0 <= m && m <= 0xc2 {
                    let hv = read_be16(data, i + 5);
                    let wv = read_be16(data, i + 7);
                    proof {
                        assert(jpeg_scan(data@, i as int) == Some(
                            (be16_at(data@, i + 7), be16_at(data@, i + 5)),
                        ));
                        assert((wv as i32) as u32 == wv as u32);
                        assert((hv as i32) as u32 == hv as u32);
                    }
                    return Some((Some(wv as i32), Some(hv as i32)));
                }
                if m == 0xd9 || m == 0xda {
                    proof {
                        assert(jpeg_scan(data@, i as int) is None);
                    }
                    return None;
                }
                let seg = read_be16(data, i + 2);
                let rem = data.len() - 9 - i;
                let step = 2 + (seg as usize);
                if step >= rem {
                    proof {
                        assert(jpeg_scan(data@, i as int) is None);
                    }
                    return None;
                }
                proof {
                    assert(jpeg_scan(data@, i as int) == jpeg_scan(data@, i + step));
                }
                i += step;
            } else {
                proof {
                    assert(jpeg_scan(data@, i as int) == jpeg_scan(data@, i + 1));
                }
                i += 1;
            }
        }
        proof {
            assert(jpeg_scan(data@, i as int) is None);
        }
        return None;
    }
    None
}

/// Whether the name has a dot at all.
pub open spec fn has_dot(s: Seq<char>) -> bool {
    exists|k: int| 0 <= k < s.len() && s[k] == '.'
}

/// The characters after the last dot of a file name; a dotless name is
/// its own extension, as splitting on dots leaves it whole.
pub open spec fn extension_of(s: Seq<char>) -> Seq<char>
    decreases s.len(),
{
    if !has_dot(s) {
        s
    } else if s.last() == '.' {
        Seq::empty()
    } else {
        extension_of(s.drop_last()).push(s.last())
    }
}

/// The extension is the suffix after the last dot.
proof fn lemma_extension_suffix(s: Seq<char>, d: int)
    requires
        0 <= d < s.len(),
        s[d] == '.',
        forall|k: int| d < k < s.len() ==> s[k] != '.',
    ensures
        extension_of(s) == s.subrange(d + 1, s.len() as int),
    decreases s.len(),
{
    assert(has_dot(s));
    if d == s.len() - 1 {
        assert(extension_of(s) =~= s.subrange(d + 1, s.len() as int));
    } else {
        assert(s.last() != '.');
        assert(s.drop_last()[d] == '.');
        assert(forall|k: int| d < k < s.drop_last().len() ==> s.drop_last()[k] != s[k] || s[k]
            != '.');
        assert(forall|k: int| d < k < s.drop_last().len() ==> s.drop_last()[k] != '.');
        lemma_extension_suffix(s.drop_last(), d);
        assert(extension_of(s) =~= s.subrange(d + 1, s.len() as int));
    }
}

/// The extension of a file name, as dot-splitting sees it.
pub fn split_extension(name: &str) -> (ext: String)
    ensures
        ext@ == extension_of(name@),
{
    let n = name.unicode_len();
    let mut dot: usize = n;
    let mut k: usize = 0;
    while k < n
        invariant
            k <= n,
            n == name@.len(),
            dot == n || (dot < k && name@[dot as int] == '.' && forall|m: int|
                dot < m < k ==> name@[m] != '.'),
            dot == n ==> forall|m: int| 0 <= m < k ==> name@[m] != '.',
        decreases n - k,
    {
        if name.get_char(k) == '.' {
            dot = k;
        }
        k += 1;
    }
    if dot == n {
        assert(!has_dot(name@));
        name.to_owned()
    } else {
        let sub = name.substring_char(dot + 1, n);
        proof {
            lemma_extension_suffix(name@, dot as int);
        }
        sub.to_owned()
    }
}

/// The stored file name of an upload: the asset identity, a dot, and
/// the upload's extension.
pub fn stored_media_name(id: &str, file_name: &str) -> (r: String)
    ensures
        r@ == id@ + seq!['.'] + extension_of(file_name@),
{
    let ext = split_extension(file_name);
    let mut s = id.to_owned();
    push_char(&mut s, '.');
    s.append(ext.as_str());
    proof {
        assert(s@ =~= id@ + seq!['.'] + extension_of(file_name@));
    }
    s
}

/// Why an upload cannot be planned: the payload is not valid base64.
#[derive(Clone, Copy, Debug, PartialEq, Eq, Structural)]
pub enum MediaError {
    InvalidPayload,
}

/// Everything a media upload decides before any byte is written: the
/// decoded payload, its size, the stored name, and the sniffed
/// dimensions for image payloads.
pub struct UploadPlan {
    pub bytes: Vec<u8>,
    pub file_size: i64,
    pub stored_name: String,
    pub width: Option<i32>,
    pub height: Option<i32>,
}

/// Plan a media upload from its base64 payload: decode, measure, derive
/// the stored name, and sniff dimensions when the declared type is an
/// image. Planning succeeds exactly when the payload decodes.
pub fn plan_upload(id: &str, file_name: &str, mime_type: &str, data_b64: &str) -> (r: Result<
    UploadPlan,
    MediaError,
>)
    ensures
        (r is Ok) == (b64_decoded(data_b64@) is Some),
        r matches Ok(p) ==> (b64_decoded(data_b64@) matches Some(b) ==> {
            &&& p.bytes@ == b
            &&& b.len() <= i64::MAX ==> p.file_size as int == b.len()
            &&& p.stored_name@ == id@ + seq!['.'] + extension_of(file_name@)
            &&& has_prefix(mime_type@, "image/"@) ==> match image_dims(b) {
                Some(wh) => (p.width matches Some(w) && ((w as u32) as int == wh.0)) && (
                p.height matches Some(h) && ((h as u32) as int == wh.1)),
                None => p.width is None && p.height is None,
            }
            &&& !has_prefix(mime_type@, "image/"@) ==> p.width is None && p.height is None
        }),
{
    let bytes = match decode_base64(data_b64) {
        Ok(b) => b,
        Err(_) => {
            return Err(MediaError::InvalidPayload);
        },
    };
    let file_size: i64 = #[verifier::truncate] (bytes.len() as i64);
    proof {
        if bytes@.len() <= i64::MAX {
            assert(file_size as int == bytes@.len());
        }
    }
    let stored_name = stored_media_name(id, file_name);
    let (width, height) = if str_has_prefix(mime_type, "image/") {
        match get_image_dimensions(bytes.as_slice()) {
            Some(p) => p,
            None => (None, None),
        }
    } else {
        (None, None)
    };
    Ok(UploadPlan { bytes, file_size, stored_name, width, height })
}

} // verus!
