use vstd::prelude::*;

use crate::model::{DataElement, DicomError, DicomValue};
use crate::util::{first_with_tag, get_data_element_via_tag, str_is, subvec};

verus! {

/// Whether higher values are darker (MONOCHROME1) or brighter (MONOCHROME2).
#[derive(Debug, Clone, Copy, PartialEq, Eq, Structural)]
pub enum Photometric {
    Monochrome1,
    Monochrome2,
}

/// A real-valued imaging parameter, carried either as 64-bit float bits or
/// as its decimal source token; the numeric interpretation happens outside
/// the verified core.
#[derive(Debug, Clone)]
pub enum RealParam {
    Bits(u64),
    Token(String),
}

/// The mathematical shape of a real-valued parameter.
pub enum RealModel {
    Bits(u64),
    Token(Seq<char>),
}

pub open spec fn real_view(p: RealParam) -> RealModel {
    match p {
        RealParam::Bits(b) => RealModel::Bits(b),
        RealParam::Token(s) => RealModel::Token(s@),
    }
}

/// Everything the display pipeline needs, extracted and unpacked from a
/// decoded dataset: the raster geometry, the masked 16-bit samples with
/// their raw bounds, and the rescale/window parameters.
#[derive(Debug)]
pub struct ImageTask {
    pub columns: u16,
    pub rows: u16,
    pub photometric: Photometric,
    pub samples: Vec<u16>,
    pub data_min: u16,
    pub data_max: u16,
    pub window_center: RealParam,
    pub window_width: RealParam,
    pub rescale_intercept: RealParam,
    pub rescale_slope: RealParam,
}

/// The mathematical shape of an image task.
#[verifier::ext_equal]
pub struct TaskModel {
    pub columns: u16,
    pub rows: u16,
    pub photometric: Photometric,
    pub samples: Seq<u16>,
    pub data_min: u16,
    pub data_max: u16,
    pub window_center: RealModel,
    pub window_width: RealModel,
    pub rescale_intercept: RealModel,
    pub rescale_slope: RealModel,
}

pub open spec fn task_view(t: ImageTask) -> TaskModel {
    TaskModel {
        columns: t.columns,
        rows: t.rows,
        photometric: t.photometric,
        samples: t.samples@,
        data_min: t.data_min,
        data_max: t.data_max,
        window_center: real_view(t.window_center),
        window_width: real_view(t.window_width),
        rescale_intercept: real_view(t.rescale_intercept),
        rescale_slope: real_view(t.rescale_slope),
    }
}

/// Whether the dataset carries an element with the given tag.
pub open spec fn has_tag(es: Seq<DataElement>, tag: Seq<char>) -> bool {
    first_with_tag(es, tag) is Some
}

/// The transfer-syntax gate: when the element holds text, it must be the
/// explicit-VR little-endian identifier; a value of another shape passes.
pub open spec fn ts_accepted(es: Seq<DataElement>) -> bool {
    match first_with_tag(es, "0002,0010"@) {
        Option::None => false,
        Option::Some(e) => match e.data {
            DicomValue::Text(s) => s@ == "1.2.840.10008.1.2.1"@,
            _ => true,
        },
    }
}

/// The first 16-bit entry of an element; 0 when the value has another
/// shape; nothing when the array is empty.
pub open spec fn u16_of_elem(e: DataElement) -> Option<u16> {
    match e.data {
        DicomValue::U16(v) => if v@.len() > 0 {
            Option::Some(v@[0])
        } else {
            Option::None
        },
        _ => Option::Some(0),
    }
}

/// The first real entry of an element: a decimal token, or 64-bit float
/// bits; bits of zero when the value has another shape; nothing when the
/// array is empty.
pub open spec fn real_of_elem(e: DataElement) -> Option<RealModel> {
    match e.data {
        DicomValue::Decimals(v) => if v@.len() > 0 {
            Option::Some(RealModel::Token(v@[0]@))
        } else {
            Option::None
        },
        DicomValue::Double(v) => if v@.len() > 0 {
            Option::Some(RealModel::Bits(v@[0]))
        } else {
            Option::None
        },
        _ => Option::Some(RealModel::Bits(0)),
    }
}

/// The text of an element; empty when the value has another shape.
pub open spec fn text_of_elem(e: DataElement) -> Seq<char> {
    match e.data {
        DicomValue::Text(s) => s@,
        _ => Seq::empty(),
    }
}

/// The bytes of an element; empty when the value has another shape.
pub open spec fn bytes_of_elem(e: DataElement) -> Seq<u8> {
    match e.data {
        DicomValue::Bytes(v) => v@,
        _ => Seq::empty(),
    }
}

/// The mask applied to each sample's least-significant byte.
pub open spec fn mask_spec(ba: u16, bs: u16) -> u8
    recommends
        bs < ba <= bs + 8,
{
    0xffu8 << ((8 - (ba - bs)) as u8)
}

/// The unpacked samples: every two bytes, the first masked, read as one
/// little-endian 16-bit value.
pub open spec fn spec_samples(pix: Seq<u8>, mask: u8) -> Seq<u16> {
    Seq::new((pix.len() / 2) as nat, |k: int| ((pix[2 * k] & mask) + 256 * pix[2 * k + 1]) as u16)
}

pub open spec fn seq_min_u16(s: Seq<u16>) -> u16
    recommends
        s.len() > 0,
    decreases s.len(),
{
    if s.len() <= 1 {
        s[0]
    } else {
        let m = seq_min_u16(s.drop_last());
        if s.last() < m {
            s.last()
        } else {
            m
        }
    }
}

pub open spec fn seq_max_u16(s: Seq<u16>) -> u16
    recommends
        s.len() > 0,
    decreases s.len(),
{
    if s.len() <= 1 {
        s[0]
    } else {
        let m = seq_max_u16(s.drop_last());
        if s.last() > m {
            s.last()
        } else {
            m
        }
    }
}

pub open spec fn seq_max_u8(s: Seq<u8>) -> u8
    recommends
        s.len() > 0,
    decreases s.len(),
{
    if s.len() <= 1 {
        s[0]
    } else {
        let m = seq_max_u8(s.drop_last());
        if s.last() > m {
            s.last()
        } else {
            m
        }
    }
}

/// What the reconstruction front end yields from a dataset, when every gate
/// passes: the task whose parts the display transform consumes.
pub open spec fn spec_image_task(es: Seq<DataElement>) -> Option<TaskModel> {
    if !has_tag(es, "0002,0010"@) || !ts_accepted(es) {
        Option::None
    } else if !has_tag(es, "0028,0010"@) || !has_tag(es, "0028,0011"@) || !has_tag(
        es,
        "0028,0004"@,
    ) || !has_tag(es, "0028,0100"@) || !has_tag(es, "0028,0101"@) || !has_tag(es, "0028,1050"@)
        || !has_tag(es, "0028,1051"@) || !has_tag(es, "0028,1052"@) || !has_tag(es, "0028,1053"@)
        || !has_tag(es, "7FE0,0010"@) {
        Option::None
    } else {
        let rows = u16_of_elem(first_with_tag(es, "0028,0010"@).unwrap());
        let columns = u16_of_elem(first_with_tag(es, "0028,0011"@).unwrap());
        let photometric = text_of_elem(first_with_tag(es, "0028,0004"@).unwrap());
        let ba = u16_of_elem(first_with_tag(es, "0028,0100"@).unwrap());
        let bs = u16_of_elem(first_with_tag(es, "0028,0101"@).unwrap());
        let wc = real_of_elem(first_with_tag(es, "0028,1050"@).unwrap());
        let ww = real_of_elem(first_with_tag(es, "0028,1051"@).unwrap());
        let ri = real_of_elem(first_with_tag(es, "0028,1052"@).unwrap());
        let rs = real_of_elem(first_with_tag(es, "0028,1053"@).unwrap());
        let pix = bytes_of_elem(first_with_tag(es, "7FE0,0010"@).unwrap());
        if rows is None || columns is None || ba is None || bs is None || wc is None || ww is None
            || ri is None || rs is None {
            Option::None
        } else {
            let ban = ba.unwrap();
            let bsn = bs.unwrap();
            if !(bsn < ban && ban - bsn <= 8) {
                Option::None
            } else if ban / 8 != 2 {
                Option::None
            } else if pix.len() % 2 != 0 {
                Option::None
            } else {
                let samples = spec_samples(pix, mask_spec(ban, bsn));
                if !(photometric == "MONOCHROME2"@ || photometric == "MONOCHROME1"@) {
                    Option::None
                } else if samples.len() == 0 {
                    Option::None
                } else {
                    Option::Some(
                        TaskModel {
                            columns: columns.unwrap(),
                            rows: rows.unwrap(),
                            photometric: if photometric == "MONOCHROME1"@ {
                                Photometric::Monochrome1
                            } else {
                                Photometric::Monochrome2
                            },
                            samples: samples,
                            data_min: seq_min_u16(samples),
                            data_max: seq_max_u16(samples),
                            window_center: wc.unwrap(),
                            window_width: ww.unwrap(),
                            rescale_intercept: ri.unwrap(),
                            rescale_slope: rs.unwrap(),
                        },
                    )
                }
            }
        }
    }
}

fn lookup_or_missing<'a>(elements: &'a Vec<DataElement>, tag: &str) -> (r: Result<
    &'a DataElement,
    DicomError,
>)
    ensures
        r is Ok <==> has_tag(elements@, tag@),
        r is Ok ==> first_with_tag(elements@, tag@) == Option::Some(*r.unwrap()),
        r is Err ==> r.unwrap_err() is MissingAttribute,
{
    let owned: String = tag.to_owned();
    match get_data_element_via_tag(elements, owned) {
        Option::Some(e) => Result::Ok(e),
        Option::None => Result::Err(DicomError::MissingAttribute(tag.to_owned())),
    }
}

fn u16_attr(e: &DataElement, tag: &str) -> (r: Result<u16, DicomError>)
    ensures
        r is Ok <==> u16_of_elem(*e) is Some,
        r is Ok ==> r.unwrap() == u16_of_elem(*e).unwrap(),
        r is Err ==> r.unwrap_err() is EmptyAttribute,
{
    match &e.data {
        DicomValue::U16(v) => {
            if v.len() == 0 {
                Result::Err(DicomError::EmptyAttribute(tag.to_owned()))
            } else {
                Result::Ok(v[0])
            }
        },
        _ => Result::Ok(0),
    }
}

fn real_attr(e: &DataElement, tag: &str) -> (r: Result<RealParam, DicomError>)
    ensures
        r is Ok <==> real_of_elem(*e) is Some,
        r is Ok ==> real_view(r.unwrap()) == real_of_elem(*e).unwrap(),
        r is Err ==> r.unwrap_err() is EmptyAttribute,
{
    match &e.data {
        DicomValue::Decimals(v) => {
            if v.len() == 0 {
                Result::Err(DicomError::EmptyAttribute(tag.to_owned()))
            } else {
                let t = vstd::slice::slice_index_get(v.as_slice(), 0);
                Result::Ok(RealParam::Token(t.clone()))
            }
        },
        DicomValue::Double(v) => {
            if v.len() == 0 {
                Result::Err(DicomError::EmptyAttribute(tag.to_owned()))
            } else {
                Result::Ok(RealParam::Bits(v[0]))
            }
        },
        _ => Result::Ok(RealParam::Bits(0)),
    }
}

/// The smallest entry of a non-empty vector.
fn vec_min_u16(v: &Vec<u16>) -> (r: u16)
    requires
        v@.len() > 0,
    ensures
        r == seq_min_u16(v@),
{
    let mut m = v[0];
    let mut i: usize = 1;
    proof {
        assert(v@.take(1).len() == 1);
        assert(v@.take(1)[0] == v@[0]);
    }
    while i < v.len()
        invariant
            1 <= i <= v@.len(),
            m == seq_min_u16(v@.take(i as int)),
        decreases v@.len() - i,
    {
        let x = v[i];
        proof {
            assert(v@.take(i as int + 1).drop_last() =~= v@.take(i as int));
            assert(v@.take(i as int + 1).last() == v@[i as int]);
        }
        if x < m {
            m = x;
        }
        i = i + 1;
    }
    proof {
        assert(v@.take(v@.len() as int) =~= v@);
    }
    m
}

/// The largest entry of a non-empty vector.
fn vec_max_u16(v: &Vec<u16>) -> (r: u16)
    requires
        v@.len() > 0,
    ensures
        r == seq_max_u16(v@),
{
    let mut m = v[0];
    let mut i: usize = 1;
    proof {
        assert(v@.take(1).len() == 1);
        assert(v@.take(1)[0] == v@[0]);
    }
    while i < v.len()
        invariant
            1 <= i <= v@.len(),
            m == seq_max_u16(v@.take(i as int)),
        decreases v@.len() - i,
    {
        let x = v[i];
        proof {
            assert(v@.take(i as int + 1).drop_last() =~= v@.take(i as int));
            assert(v@.take(i as int + 1).last() == v@[i as int]);
        }
        if x > m {
            m = x;
        }
        i = i + 1;
    }
    proof {
        assert(v@.take(v@.len() as int) =~= v@);
    }
    m
}

/// Prepares image reconstruction from a decoded dataset: checks the
/// transfer syntax, extracts the imaging attributes, unpacks and masks the
/// 16-bit samples and computes their raw bounds. The floating-point display
/// transform consumes the returned task.
pub fn generate_image(data_elements: &Vec<DataElement>) -> (r: Result<ImageTask, DicomError>)
    ensures
        r is Ok <==> spec_image_task(data_elements@) is Some,
        r is Ok ==> task_view(r.unwrap()) == spec_image_task(data_elements@).unwrap(),
        !has_tag(data_elements@, "0002,0010"@) ==> r is Err && r.unwrap_err()
            is MissingAttribute,
        has_tag(data_elements@, "0002,0010"@) && !ts_accepted(data_elements@) ==> r is Err
            && r.unwrap_err() is UnsupportedTransferSyntax,
{
    // the transfer-syntax gate comes before any pixel work
    let ts = lookup_or_missing(data_elements, "0002,0010")?;
    match &ts.data {
        DicomValue::Text(v) => {
            if !str_is(v, "1.2.840.10008.1.2.1") {
                return Result::Err(DicomError::UnsupportedTransferSyntax(v.clone()));
            }
        },
        _ => {},
    }
    let rows_e = lookup_or_missing(data_elements, "0028,0010")?;
    let rows = u16_attr(rows_e, "0028,0010")?;
    let columns_e = lookup_or_missing(data_elements, "0028,0011")?;
    let columns = u16_attr(columns_e, "0028,0011")?;
    let photometric_e = lookup_or_missing(data_elements, "0028,0004")?;
    let photometric = match &photometric_e.data {
        DicomValue::Text(v) => v.clone(),
        _ => String::new(),
    };
    let ba_e = lookup_or_missing(data_elements, "0028,0100")?;
    let bit_allocated = u16_attr(ba_e, "0028,0100")?;
    let bs_e = lookup_or_missing(data_elements, "0028,0101")?;
    let bit_stored = u16_attr(bs_e, "0028,0101")?;
    let wc_e = lookup_or_missing(data_elements, "0028,1050")?;
    let window_center = real_attr(wc_e, "0028,1050")?;
    let ww_e = lookup_or_missing(data_elements, "0028,1051")?;
    let window_width = real_attr(ww_e, "0028,1051")?;
    let ri_e = lookup_or_missing(data_elements, "0028,1052")?;
    let rescale_intercept = real_attr(ri_e, "0028,1052")?;
    let rs_e = lookup_or_missing(data_elements, "0028,1053")?;
    let rescale_slope = real_attr(rs_e, "0028,1053")?;
    let pix_e = lookup_or_missing(data_elements, "7FE0,0010")?;
    let pixel_datas = match &pix_e.data {
        DicomValue::Bytes(v) => subvec(v, 0, v.len()),
        _ => Vec::new(),
    };
    proof {
        assert(pixel_datas@ =~= bytes_of_elem(*pix_e));
    }
    // the sample mask assumes 16-bit allocation with up to 8 unused bits
    if !(bit_stored < bit_allocated && bit_allocated - bit_stored <= 8) {
        return Result::Err(
            DicomError::UnsupportedBitDepth {
                bits_allocated: bit_allocated,
                bits_stored: bit_stored,
            },
        );
    }
    let sh: u16 = 8 - (bit_allocated - bit_stored);
    let mask: u8 = 0xffu8 << (sh as u8);
    proof {
        assert(mask == mask_spec(bit_allocated, bit_stored));
    }
    let bytes_per = (bit_allocated / 8) as usize;
    if bytes_per != 2 {
        return Result::Err(
            DicomError::UnsupportedBitDepth {
                bits_allocated: bit_allocated,
                bits_stored: bit_stored,
            },
        );
    }
    let pn = pixel_datas.len();
    if pn % 2 != 0 {
        return Result::Err(DicomError::OutOfBounds { offset: pn - 1, needed: 2 });
    }
    let mut samples: Vec<u16> = Vec::new();
    let mut off: usize = 0;
    while off < pn
        invariant
            off <= pn,
            off % 2 == 0,
            pn % 2 == 0,
            pn == pixel_datas@.len(),
            samples@.len() == off as int / 2,
            forall|k: int|
                0 <= k < samples@.len() ==> samples@[k] == ((pixel_datas@[2 * k] & mask) + 256
                    * pixel_datas@[2 * k + 1]) as u16,
        decreases pn - off,
    {
        let b0: u8 = pixel_datas[off] & mask;
        let b1: u8 = pixel_datas[off + 1];
        let sample: u16 = b0 as u16 + 256u16 * (b1 as u16);
        samples.push(sample);
        off = off + 2;
    }
    proof {
        assert(samples@ =~= spec_samples(pixel_datas@, mask));
    }
    if !(str_is(&photometric, "MONOCHROME2") || str_is(&photometric, "MONOCHROME1")) {
        return Result::Err(DicomError::UnsupportedPhotometric(photometric));
    }
    if samples.len() == 0 {
        return Result::Err(DicomError::EmptyPixelData);
    }
    let data_min = vec_min_u16(&samples);
    let data_max = vec_max_u16(&samples);
    let task = ImageTask {
        columns,
        rows,
        photometric: if str_is(&photometric, "MONOCHROME1") {
            Photometric::Monochrome1
        } else {
            Photometric::Monochrome2
        },
        samples,
        data_min,
        data_max,
        window_center,
        window_width,
        rescale_intercept,
        rescale_slope,
    };
    proof {
        assert(task_view(task) =~= spec_image_task(data_elements@).unwrap());
    }
    Result::Ok(task)
}

/// Inverts a display raster for MONOCHROME1: every byte becomes the
/// raster's maximum value minus the byte.
pub fn invert_monochrome1(pixels: &Vec<u8>) -> (r: Vec<u8>)
    requires
        pixels@.len() > 0,
    ensures
        r@.len() == pixels@.len(),
        forall|i: int| 0 <= i < r@.len() ==> r@[i] == seq_max_u8(pixels@) - pixels@[i],
{
    let mut m = pixels[0];
    let mut i: usize = 1;
    proof {
        assert(pixels@.take(1).len() == 1);
        assert(pixels@.take(1)[0] == pixels@[0]);
    }
    while i < pixels.len()
        invariant
            1 <= i <= pixels@.len(),
            m == seq_max_u8(pixels@.take(i as int)),
        decreases pixels@.len() - i,
    {
        let x = pixels[i];
        proof {
            assert(pixels@.take(i as int + 1).drop_last() =~= pixels@.take(i as int));
            assert(pixels@.take(i as int + 1).last() == pixels@[i as int]);
        }
        if x > m {
            m = x;
        }
        i = i + 1;
    }
    proof {
        assert(pixels@.take(pixels@.len() as int) =~= pixels@);
    }
    let ghost top = seq_max_u8(pixels@);
    let mut out: Vec<u8> = Vec::new();
    let mut k: usize = 0;
    proof {
        lemma_seq_max_u8_bound(pixels@);
    }
    while k < pixels.len()
        invariant
            k <= pixels@.len(),
            m == seq_max_u8(pixels@),
            out@.len() == k,
            forall|j: int| 0 <= j < pixels@.len() ==> pixels@[j] <= m,
            forall|j: int| 0 <= j < k ==> out@[j] == seq_max_u8(pixels@) - pixels@[j],
        decreases pixels@.len() - k,
    {
        out.push(m - pixels[k]);
        k = k + 1;
    }
    out
}

/// Every entry of a non-empty byte sequence is at most its maximum.
pub proof fn lemma_seq_max_u8_bound(s: Seq<u8>)
    requires
        s.len() > 0,
    ensures
        forall|j: int| 0 <= j < s.len() ==> s[j] <= seq_max_u8(s),
    decreases s.len(),
{
    if s.len() > 1 {
        lemma_seq_max_u8_bound(s.drop_last());
        assert forall|j: int| 0 <= j < s.len() implies s[j] <= seq_max_u8(s) by {
            if j < s.len() - 1 {
                assert(s.drop_last()[j] == s[j]);
            }
        }
    }
}

} // verus!
