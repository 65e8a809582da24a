//! The extended navigation record: a navigation record with inputs, outputs
//! and named extra parameters.
use vstd::prelude::*;
use crate::frame::{result_view, FrameError};
use crate::login_packet::ranges_within;
use crate::number::{decimal_value, int_in, parse_decimal, parse_int, Decimal};
use crate::scan::{is_single, pieces, split, split_ranges};
use crate::short_data_packet::{nav_from_fields, nav_value, ShortDataPacket};
use crate::text::{gather, strs_bytes, text_in, text_of};

verus! {

/// The value of an extra parameter.
#[derive(Clone, Copy, Debug, PartialEq, Eq, Structural)]
pub enum Params {
    Int(i32),
    Float(Decimal),
}

/// The record of a frame of type `D`.
#[derive(Debug)]
pub struct DataPacket {
    pub spd: ShortDataPacket,
    pub hdop: Decimal,
    pub inputs: i32,
    pub outputs: i32,
    pub adc: String,
    pub ibutton: String,
    /// The extra parameters, by name, in the order of the frame.
    pub params: Vec<(String, Params)>,
}

pub struct DataView {
    pub spd: ShortDataPacket,
    pub hdop: Decimal,
    pub inputs: i32,
    pub outputs: i32,
    pub adc: Seq<char>,
    pub ibutton: Seq<char>,
    pub params: Seq<(Seq<char>, Params)>,
}

pub open spec fn param_view(p: (String, Params)) -> (Seq<char>, Params) {
    (p.0@, p.1)
}

impl View for DataPacket {
    type V = DataView;

    open spec fn view(&self) -> DataView {
        DataView {
            spd: self.spd,
            hdop: self.hdop,
            inputs: self.inputs,
            outputs: self.outputs,
            adc: self.adc@,
            ibutton: self.ibutton@,
            params: self.params@.map_values(|p: (String, Params)| param_view(p)),
        }
    }
}

pub open spec fn i32_value(s: Seq<u8>) -> Option<int> {
    int_in(s, i32::MIN as int, i32::MAX as int)
}

/// One extra parameter `name:type:value`. Type `1` reads the value as an
/// integer and type `2` as a decimal; any other type gives the integer 0,
/// where the value is valid UTF-8 text.
pub open spec fn param_value(e: Seq<u8>) -> Option<(Seq<char>, Params)> {
    let parts = split(e, 58);
    if parts.len() != 3 {
        None
    } else {
        match text_of(parts[0]) {
            None => None,
            Some(name) => if parts[1] == seq![49u8] {
                match i32_value(parts[2]) {
                    Some(v) => Some((name, Params::Int(v as i32))),
                    None => None,
                }
            } else if parts[1] == seq![50u8] {
                match decimal_value(parts[2]) {
                    Some(d) => Some((name, Params::Float(d))),
                    None => None,
                }
            } else if text_of(parts[2]) is Some {
                Some((name, Params::Int(0)))
            } else {
                None
            },
        }
    }
}

/// The extra parameters of a field: none where the field is empty, else
/// the comma-separated entries, each of which must read.
pub open spec fn params_value(field: Seq<u8>) -> Option<Seq<(Seq<char>, Params)>> {
    let entries = split(field, 44);
    if field.len() == 0 {
        Some(Seq::empty())
    } else if forall|i: int| 0 <= i < entries.len() ==> (#[trigger] param_value(entries[i])) is Some {
        Some(entries.map_values(|e: Seq<u8>| param_value(e)->Some_0))
    } else {
        None
    }
}

/// The extended navigation record that the fields `f` of a body write:
/// the ten navigation fields, then hdop, input mask, output mask, analog
/// inputs, attached tag and the extra parameters.
pub open spec fn data_value(f: Seq<Seq<u8>>) -> Result<DataView, FrameError> {
    if f.len() != 16 {
        Err(FrameError::Malformed)
    } else {
        let spd = nav_value(f);
        let hdop = decimal_value(f[10]);
        let inputs = i32_value(f[11]);
        let outputs = i32_value(f[12]);
        let adc = text_of(f[13]);
        let ibutton = text_of(f[14]);
        let params = params_value(f[15]);
        if spd is Some && hdop is Some && inputs is Some && outputs is Some && adc is Some
            && ibutton is Some && params is Some {
            Ok(
                DataView {
                    spd: spd->Some_0,
                    hdop: hdop->Some_0,
                    inputs: inputs->Some_0 as i32,
                    outputs: outputs->Some_0 as i32,
                    adc: adc->Some_0,
                    ibutton: ibutton->Some_0,
                    params: params->Some_0,
                },
            )
        } else {
            Err(FrameError::FieldError)
        }
    }
}

fn parse_i32(buf: &[u8], lo: usize, hi: usize) -> (r: Option<i32>)
    requires
        lo <= hi <= buf@.len(),
    ensures
        match r {
            Some(v) => i32_value(buf@.subrange(lo as int, hi as int)) == Some(v as int),
            None => i32_value(buf@.subrange(lo as int, hi as int)) is None,
        },
{
    match parse_int(buf, lo, hi, -2147483648, 2147483647) {
        Some(v) => Some(v as i32),
        None => None,
    }
}

/// The extra parameter written in `buf[lo..hi]`.
fn parse_param(buf: &[u8], lo: usize, hi: usize) -> (r: Option<(String, Params)>)
    requires
        lo <= hi <= buf@.len(),
    ensures
        match r {
            Some(p) => param_value(buf@.subrange(lo as int, hi as int)) == Some(param_view(p)),
            None => param_value(buf@.subrange(lo as int, hi as int)) is None,
        },
{
    let parts = split_ranges(buf, lo, hi, 58);
    if parts.len() != 3 {
        return None;
    }
    let name = match text_in(buf, parts[0].0, parts[0].1) {
        Some(name) => name,
        None => {
            return None;
        },
    };
    if is_single(buf, parts[1].0, parts[1].1, 49) {
        match parse_i32(buf, parts[2].0, parts[2].1) {
            Some(v) => Some((name, Params::Int(v))),
            None => None,
        }
    } else if is_single(buf, parts[1].0, parts[1].1, 50) {
        match parse_decimal(buf, parts[2].0, parts[2].1) {
            Some(d) => Some((name, Params::Float(d))),
            None => None,
        }
    } else {
        match text_in(buf, parts[2].0, parts[2].1) {
            Some(_) => Some((name, Params::Int(0))),
            None => None,
        }
    }
}

/// The extra parameters written in `buf[lo..hi]`.
fn parse_params(buf: &[u8], lo: usize, hi: usize) -> (r: Option<Vec<(String, Params)>>)
    requires
        lo <= hi <= buf@.len(),
    ensures
        match r {
            Some(v) => params_value(buf@.subrange(lo as int, hi as int)) == Some(
                v@.map_values(|p: (String, Params)| param_view(p)),
            ),
            None => params_value(buf@.subrange(lo as int, hi as int)) is None,
        },
{
    let ghost field = buf@.subrange(lo as int, hi as int);
    let ghost entries = split(field, 44);
    let mut out: Vec<(String, Params)> = Vec::new();
    if lo == hi {
        assert(out@.map_values(|p: (String, Params)| param_view(p)) =~= Seq::empty());
        return Some(out);
    }
    let e = split_ranges(buf, lo, hi, 44);
    assert(pieces(buf@, e@) == entries);
    let mut k: usize = 0;
    while k < e.len()
        invariant
            0 <= k <= e@.len(),
            lo < hi <= buf@.len(),
            field == buf@.subrange(lo as int, hi as int),
            entries == split(field, 44),
            pieces(buf@, e@) == entries,
            forall|i: int| 0 <= i < e@.len() ==> lo <= (#[trigger] e@[i]).0 <= e@[i].1 <= hi,
            forall|i: int| 0 <= i < k ==> (#[trigger] param_value(entries[i])) is Some,
            out@.map_values(|p: (String, Params)| param_view(p)) == entries.subrange(
                0,
                k as int,
            ).map_values(|e: Seq<u8>| param_value(e)->Some_0),
        decreases e@.len() - k,
    {
        assert(entries[k as int] == buf@.subrange(e@[k as int].0 as int, e@[k as int].1 as int));
        match parse_param(buf, e[k].0, e[k].1) {
            Some(p) => {
                let ghost before = out@;
                out.push(p);
                proof {
                    let mapped = out@.map_values(|p: (String, Params)| param_view(p));
                    let want = entries.subrange(0, k + 1).map_values(
                        |e: Seq<u8>| param_value(e)->Some_0,
                    );
                    let prev = entries.subrange(0, k as int).map_values(
                        |e: Seq<u8>| param_value(e)->Some_0,
                    );
                    assert(before.map_values(|p: (String, Params)| param_view(p)) == prev);
                    assert(prev.len() == k);
                    assert(before.map_values(|p: (String, Params)| param_view(p)).len()
                        == before.len());
                    assert(before.len() == k);
                    assert forall|i: int| 0 <= i < k + 1 implies #[trigger] mapped[i] == want[i] by {
                        if i < k {
                            assert(out@[i] == before[i]);
                            assert(mapped[i] == before.map_values(
                                |p: (String, Params)| param_view(p),
                            )[i]);
                            assert(want[i] == prev[i]);
                        } else {
                            assert(out@[i] == p);
                        }
                    }
                    assert(mapped.len() == want.len());
                    assert(mapped =~= want);
                }
            },
            None => {
                assert(param_value(entries[k as int]) is None);
                return None;
            },
        }
        k = k + 1;
    }
    assert(entries.subrange(0, k as int) =~= entries);
    Some(out)
}

/// The extended navigation record of the fields at `f` in `buf`.
pub(crate) fn data_from_fields(buf: &[u8], f: &Vec<(usize, usize)>) -> (r: Result<DataPacket, FrameError>)
    requires
        ranges_within(buf@, f@),
    ensures
        result_view(r) == data_value(pieces(buf@, f@)),
{
    if f.len() != 16 {
        return Err(FrameError::Malformed);
    }
    let spd = nav_from_fields(buf, f);
    let hdop = parse_decimal(buf, f[10].0, f[10].1);
    let inputs = parse_i32(buf, f[11].0, f[11].1);
    let outputs = parse_i32(buf, f[12].0, f[12].1);
    let adc = text_in(buf, f[13].0, f[13].1);
    let ibutton = text_in(buf, f[14].0, f[14].1);
    let params = parse_params(buf, f[15].0, f[15].1);
    match (spd, hdop, inputs, outputs, adc, ibutton, params) {
        (Some(spd), Some(hdop), Some(inputs), Some(outputs), Some(adc), Some(ibutton), Some(params)) => {
            Ok(DataPacket { spd, hdop, inputs, outputs, adc, ibutton, params })
        },
        _ => Err(FrameError::FieldError),
    }
}

/// Two extended records are equal when all but their extra parameters are.
impl PartialEq for DataPacket {
    fn eq(&self, other: &DataPacket) -> (r: bool) {
        self.spd == other.spd && self.hdop == other.hdop && self.inputs == other.inputs
            && self.outputs == other.outputs && self.adc == other.adc && self.ibutton
            == other.ibutton
    }
}

impl vstd::std_specs::cmp::PartialEqSpecImpl for DataPacket {
    open spec fn obeys_eq_spec() -> bool {
        true
    }

    open spec fn eq_spec(&self, other: &DataPacket) -> bool {
        self.spd == other.spd && self.hdop == other.hdop && self.inputs == other.inputs
            && self.outputs == other.outputs && self.adc@ == other.adc@ && self.ibutton@
            == other.ibutton@
    }
}

impl DataPacket {
    /// The extended navigation record of the body fields `body`.
    pub fn from(body: Vec<&str>) -> (r: Result<DataPacket, FrameError>)
        ensures
            result_view(r) == data_value(strs_bytes(body@)),
    {
        let (buf, f) = gather(&body);
        data_from_fields(buf.as_slice(), &f)
    }
}

} // verus!
