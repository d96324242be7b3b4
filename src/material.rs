//! The material-library importer: a Wavefront MTL file read into named
//! materials, each with the settings that its statements give, in order.
//!
//! Colours and numbers stay as the text that wrote them; the caller reads
//! them as numbers. The illumination model is read here.

use crate::import::ImportError;
use crate::text::{copy_bytes, digits_index, index_value, parse_digits_from, parse_index, tokens, split_tokens, split_on, pieces, views};
use vstd::prelude::*;

verus! {

/// The illumination models of the MTL format, by their codes 0 to 10.
#[derive(Clone, Copy, Debug, PartialEq, Eq, Structural)]
pub enum IlluminationModel {
    COnAmOff,
    COnAmOn,
    HighOn,
    ReOnRTOn,
    TransGlassOnReRTOn,
    ReFresOnRTOn,
    TransRefracOnReFresOffRtOn,
    TransRefracOnReFresOnRtOn,
    ReOnRTOff,
    TransGlassOnReRTOff,
    InvisShadow,
}

/// The model with code `code`, if there is one.
pub open spec fn model_of_code(code: int) -> Option<IlluminationModel> {
    if code == 0 {
        Some(IlluminationModel::COnAmOff)
    } else if code == 1 {
        Some(IlluminationModel::COnAmOn)
    } else if code == 2 {
        Some(IlluminationModel::HighOn)
    } else if code == 3 {
        Some(IlluminationModel::ReOnRTOn)
    } else if code == 4 {
        Some(IlluminationModel::TransGlassOnReRTOn)
    } else if code == 5 {
        Some(IlluminationModel::ReFresOnRTOn)
    } else if code == 6 {
        Some(IlluminationModel::TransRefracOnReFresOffRtOn)
    } else if code == 7 {
        Some(IlluminationModel::TransRefracOnReFresOnRtOn)
    } else if code == 8 {
        Some(IlluminationModel::ReOnRTOff)
    } else if code == 9 {
        Some(IlluminationModel::TransGlassOnReRTOff)
    } else if code == 10 {
        Some(IlluminationModel::InvisShadow)
    } else {
        None
    }
}

impl IlluminationModel {
    /// The model with code `code`; `None` for a code outside 0 to 10.
    pub fn from_code(code: usize) -> (r: Option<IlluminationModel>)
        ensures
            r == model_of_code(code as int),
    {
        match code {
            0 => Some(IlluminationModel::COnAmOff),
            1 => Some(IlluminationModel::COnAmOn),
            2 => Some(IlluminationModel::HighOn),
            3 => Some(IlluminationModel::ReOnRTOn),
            4 => Some(IlluminationModel::TransGlassOnReRTOn),
            5 => Some(IlluminationModel::ReFresOnRTOn),
            6 => Some(IlluminationModel::TransRefracOnReFresOffRtOn),
            7 => Some(IlluminationModel::TransRefracOnReFresOnRtOn),
            8 => Some(IlluminationModel::ReOnRTOff),
            9 => Some(IlluminationModel::TransGlassOnReRTOff),
            10 => Some(IlluminationModel::InvisShadow),
            _ => None,
        }
    }
}

/// Largest value of a 32-bit signed code.
pub const CODE_MAX: usize = 2147483647;

/// Reading `s` as a 32-bit signed code: an optional sign, then digits.
/// `None` where `s` is no such number; otherwise the model of that code,
/// which is none for a code outside 0 to 10.
pub open spec fn illumination_of(s: Seq<u8>) -> Option<Option<IlluminationModel>> {
    if s.len() > 0 && s[0] == 45 {
        match digits_index(s.drop_first()) {
            Some(v) => if v <= CODE_MAX + 1 {
                Some(model_of_code(-v))
            } else {
                None
            },
            None => None,
        }
    } else {
        match index_value(s) {
            Some(v) => if v <= CODE_MAX {
                Some(model_of_code(v as int))
            } else {
                None
            },
            None => None,
        }
    }
}

/// Reads the argument of an `illum` statement.
pub fn parse_illumination(s: &[u8]) -> (r: Option<Option<IlluminationModel>>)
    ensures
        r == illumination_of(s@),
{
    if s.len() > 0 && s[0] == 45 {
        proof {
            assert(s@.drop_first() =~= s@.subrange(1, s@.len() as int));
        }
        match parse_digits_from(s, 1) {
            Some(v) => if v <= CODE_MAX + 1 {
                if v == 0 {
                    Some(Some(IlluminationModel::COnAmOff))
                } else {
                    Some(None)
                }
            } else {
                None
            },
            None => None,
        }
    } else {
        match parse_index(s) {
            Some(v) => if v <= CODE_MAX {
                Some(IlluminationModel::from_code(v))
            } else {
                None
            },
            None => None,
        }
    }
}

/// What an MTL statement sets. The colour statements `Ka`, `Kd`, `Ks`,
/// `Ke` and `Tf` take three numbers; `Ns`, `d`, `Tr` and `Ni` take one.
#[derive(Clone, Copy, Debug, PartialEq, Eq, Structural)]
pub enum MtlKey {
    Ambient,
    Diffuse,
    Specular,
    Emission,
    Filter,
    SpecularExponent,
    Dissolve,
    Transparency,
    OpticalDensity,
    Illumination(Option<IlluminationModel>),
}

/// The statement keyword `w`, with the number of arguments it takes; `None`
/// for `newmtl`, `illum` and any other word.
pub open spec fn key_of_word(w: Seq<u8>) -> Option<(MtlKey, nat)> {
    if w == seq![75u8, 97u8] {
        Some((MtlKey::Ambient, 3))
    } else if w == seq![75u8, 100u8] {
        Some((MtlKey::Diffuse, 3))
    } else if w == seq![75u8, 115u8] {
        Some((MtlKey::Specular, 3))
    } else if w == seq![75u8, 101u8] {
        Some((MtlKey::Emission, 3))
    } else if w == seq![84u8, 102u8] {
        Some((MtlKey::Filter, 3))
    } else if w == seq![78u8, 115u8] {
        Some((MtlKey::SpecularExponent, 1))
    } else if w == seq![100u8] {
        Some((MtlKey::Dissolve, 1))
    } else if w == seq![84u8, 114u8] {
        Some((MtlKey::Transparency, 1))
    } else if w == seq![78u8, 105u8] {
        Some((MtlKey::OpticalDensity, 1))
    } else {
        None
    }
}

pub open spec fn newmtl_word() -> Seq<u8> {
    seq![110u8, 101u8, 119u8, 109u8, 116u8, 108u8]
}

pub open spec fn illum_word() -> Seq<u8> {
    seq![105u8, 108u8, 108u8, 117u8, 109u8]
}

/// One statement of a material: what it sets, its arguments as written (none
/// for `illum`, whose model is in the key), and its line.
#[derive(Debug)]
pub struct MtlSetting {
    pub key: MtlKey,
    pub args: Vec<Vec<u8>>,
    pub line: usize,
}

pub struct MtlSettingView {
    pub key: MtlKey,
    pub args: Seq<Seq<u8>>,
    pub line: usize,
}

impl View for MtlSetting {
    type V = MtlSettingView;

    open spec fn view(&self) -> MtlSettingView {
        MtlSettingView { key: self.key, args: views(self.args@), line: self.line }
    }
}

/// A material: its name and its statements in file order.
#[derive(Debug)]
pub struct MtlMaterial {
    pub name: Vec<u8>,
    pub settings: Vec<MtlSetting>,
}

pub struct MtlMaterialView {
    pub name: Seq<u8>,
    pub settings: Seq<MtlSettingView>,
}

impl View for MtlMaterial {
    type V = MtlMaterialView;

    open spec fn view(&self) -> MtlMaterialView {
        MtlMaterialView { name: self.name@, settings: self.settings@.map_values(|s: MtlSetting| s@) }
    }
}

/// What has been read of an MTL file: the finished materials and the one
/// being read.
pub struct MtlRead {
    pub done: Seq<MtlMaterialView>,
    pub current: Option<MtlMaterialView>,
}

/// `st` with `setting` added to the material being read, which must exist.
pub open spec fn with_setting(st: MtlRead, setting: MtlSettingView) -> MtlRead {
    MtlRead {
        done: st.done,
        current: Some(
            MtlMaterialView {
                name: st.current->Some_0.name,
                settings: st.current->Some_0.settings.push(setting),
            },
        ),
    }
}

/// Reading one line, split into its tokens, numbered `line`. A statement
/// before the first `newmtl`, or without its arguments, is an error.
pub open spec fn mtl_step(st: MtlRead, toks: Seq<Seq<u8>>, line: usize) -> Result<MtlRead, ImportError> {
    if toks.len() == 0 {
        Ok(st)
    } else if toks[0] == newmtl_word() {
        if toks.len() < 2 {
            Err(ImportError::Malformed(line))
        } else {
            Ok(
                MtlRead {
                    done: match st.current {
                        Some(m) => st.done.push(m),
                        None => st.done,
                    },
                    current: Some(MtlMaterialView { name: toks[1], settings: seq![] }),
                },
            )
        }
    } else if toks[0] == illum_word() {
        if st.current is None || toks.len() < 2 {
            Err(ImportError::Malformed(line))
        } else {
            match illumination_of(toks[1]) {
                Some(model) => Ok(
                    with_setting(
                        st,
                        MtlSettingView { key: MtlKey::Illumination(model), args: seq![], line },
                    ),
                ),
                None => Err(ImportError::Malformed(line)),
            }
        }
    } else {
        match key_of_word(toks[0]) {
            Some((key, arity)) => if st.current is None || toks.len() < 1 + arity {
                Err(ImportError::Malformed(line))
            } else {
                Ok(
                    with_setting(
                        st,
                        MtlSettingView { key, args: toks.subrange(1, 1 + arity as int), line },
                    ),
                )
            },
            None => Ok(st),
        }
    }
}

/// Reading the lines `lines` in order; line `k` (from 0) is numbered `k + 1`.
pub open spec fn mtl_read(lines: Seq<Seq<u8>>) -> Result<MtlRead, ImportError>
    decreases lines.len(),
{
    if lines.len() == 0 {
        Ok(MtlRead { done: seq![], current: None })
    } else {
        match mtl_read(lines.drop_last()) {
            Ok(st) => mtl_step(st, tokens(lines.last()), lines.len() as usize),
            Err(e) => Err(e),
        }
    }
}

/// The materials of a finished reading, the last one included.
pub open spec fn materials_of(st: MtlRead) -> Seq<MtlMaterialView> {
    match st.current {
        Some(m) => st.done.push(m),
        None => st.done,
    }
}

proof fn lemma_mtl_read_error_stays(lines: Seq<Seq<u8>>, k: int)
    requires
        0 <= k <= lines.len(),
        mtl_read(lines.subrange(0, k)) is Err,
    ensures
        mtl_read(lines) == mtl_read(lines.subrange(0, k)),
    decreases lines.len() - k,
{
    if k < lines.len() {
        assert(lines.subrange(0, k + 1).drop_last() =~= lines.subrange(0, k));
        lemma_mtl_read_error_stays(lines, k + 1);
    } else {
        assert(lines.subrange(0, k) =~= lines);
    }
}

/// Whether `t` is the two-byte word `a b`.
fn is_word2(t: &Vec<u8>, a: u8, b: u8) -> (r: bool)
    ensures
        r == (t@ == seq![a, b]),
{
    let r = t.len() == 2 && t[0] == a && t[1] == b;
    proof {
        if r {
            assert(t@ =~= seq![a, b]);
        }
        if t@ == seq![a, b] {
            assert(t@[0] == a && t@[1] == b);
        }
    }
    r
}

fn key_of(t: &Vec<u8>) -> (r: Option<(MtlKey, usize)>)
    ensures
        match key_of_word(t@) {
            Some((k, a)) => r == Some((k, a as usize)),
            None => r is None,
        },
{
    if is_word2(t, 75, 97) {
        Some((MtlKey::Ambient, 3))
    } else if is_word2(t, 75, 100) {
        Some((MtlKey::Diffuse, 3))
    } else if is_word2(t, 75, 115) {
        Some((MtlKey::Specular, 3))
    } else if is_word2(t, 75, 101) {
        Some((MtlKey::Emission, 3))
    } else if is_word2(t, 84, 102) {
        Some((MtlKey::Filter, 3))
    } else if is_word2(t, 78, 115) {
        Some((MtlKey::SpecularExponent, 1))
    } else if t.len() == 1 && t[0] == 100 {
        proof {
            assert(t@ =~= seq![100u8]);
        }
        Some((MtlKey::Dissolve, 1))
    } else if is_word2(t, 84, 114) {
        Some((MtlKey::Transparency, 1))
    } else if is_word2(t, 78, 105) {
        Some((MtlKey::OpticalDensity, 1))
    } else {
        proof {
            if t@ == seq![100u8] {
                assert(t@[0] == 100);
            }
        }
        None
    }
}

fn copy_tokens(toks: &Vec<Vec<u8>>, from: usize, to: usize) -> (r: Vec<Vec<u8>>)
    requires
        from <= to <= toks@.len(),
    ensures
        views(r@) == views(toks@).subrange(from as int, to as int),
{
    let mut r: Vec<Vec<u8>> = Vec::new();
    let mut i: usize = from;
    while i < to
        invariant
            from <= i <= to <= toks@.len(),
            views(r@) == views(toks@).subrange(from as int, i as int),
        decreases to - i,
    {
        let t = copy_bytes(toks[i].as_slice());
        let ghost prev = r@;
        r.push(t);
        proof {
            assert(views(r@) =~= views(prev).push(toks@[i as int]@));
            assert(views(r@) =~= views(toks@).subrange(from as int, i + 1));
        }
        i = i + 1;
    }
    r
}

pub open spec fn current_view(o: Option<MtlMaterial>) -> Option<MtlMaterialView> {
    match o {
        Some(m) => Some(m@),
        None => None,
    }
}

pub open spec fn done_view(v: Seq<MtlMaterial>) -> Seq<MtlMaterialView> {
    v.map_values(|m: MtlMaterial| m@)
}

/// Adds `setting` to the material being read, which must exist.
fn add_setting(current: &mut Option<MtlMaterial>, setting: MtlSetting)
    requires
        (*old(current)) is Some,
    ensures
        current_view(*final(current)) == with_setting(
            MtlRead { done: seq![], current: current_view(*old(current)) },
            setting@,
        ).current,
{
    let mut m = current.take().unwrap();
    let ghost before = m@;
    m.settings.push(setting);
    proof {
        assert(m.settings@.map_values(|s: MtlSetting| s@) =~= before.settings.push(setting@));
    }
    *current = Some(m);
}

/// The exec form of `mtl_step`.
fn read_mtl_line(
    done: &mut Vec<MtlMaterial>,
    current: &mut Option<MtlMaterial>,
    toks: &Vec<Vec<u8>>,
    line: usize,
) -> (r: Result<(), ImportError>)
    ensures
        match mtl_step(MtlRead { done: done_view(old(done)@), current: current_view(*old(current)) }, views(toks@), line) {
            Ok(st) => r is Ok && done_view(final(done)@) == st.done && current_view(*final(current)) == st.current,
            Err(e) => r == Err::<(), ImportError>(e),
        },
{
    let ghost t = views(toks@);
    proof {
        assert(t.len() == toks@.len());
        assert(forall|k: int| 0 <= k < toks@.len() ==> t[k] == (#[trigger] toks@[k])@);
    }
    if toks.len() == 0 {
        return Ok(());
    }
    let head = &toks[0];
    let is_new = head.len() == 6 && head[0] == 110 && head[1] == 101 && head[2] == 119 && head[3] == 109
        && head[4] == 116 && head[5] == 108;
    let is_illum = head.len() == 5 && head[0] == 105 && head[1] == 108 && head[2] == 108 && head[3] == 117
        && head[4] == 109;
    proof {
        assert(is_new <==> t[0] == newmtl_word()) by {
            if t[0] == newmtl_word() {
                assert(t[0][0] == 110 && t[0][1] == 101 && t[0][2] == 119);
                assert(t[0][3] == 109 && t[0][4] == 116 && t[0][5] == 108);
            }
            if is_new {
                assert(t[0] =~= newmtl_word());
            }
        }
        assert(is_illum <==> t[0] == illum_word()) by {
            if t[0] == illum_word() {
                assert(t[0][0] == 105 && t[0][1] == 108 && t[0][2] == 108);
                assert(t[0][3] == 117 && t[0][4] == 109);
            }
            if is_illum {
                assert(t[0] =~= illum_word());
            }
        }
    }
    if is_new {
        if toks.len() < 2 {
            return Err(ImportError::Malformed(line));
        }
        let name = copy_bytes(toks[1].as_slice());
        match current.take() {
            Some(m) => {
                let ghost before = done@;
                done.push(m);
                proof {
                    assert(done_view(done@) =~= done_view(before).push(m@));
                }
            },
            None => {},
        }
        let fresh = MtlMaterial { name, settings: Vec::new() };
        proof {
            assert(fresh@.settings =~= seq![]);
        }
        *current = Some(fresh);
        Ok(())
    } else if is_illum {
        if current.is_none() || toks.len() < 2 {
            return Err(ImportError::Malformed(line));
        }
        match parse_illumination(toks[1].as_slice()) {
            Some(model) => {
                let setting = MtlSetting { key: MtlKey::Illumination(model), args: Vec::new(), line };
                proof {
                    assert(setting@.args =~= seq![]);
                }
                add_setting(current, setting);
                Ok(())
            },
            None => Err(ImportError::Malformed(line)),
        }
    } else {
        proof {
            assert(!(t[0] == newmtl_word()) && !(t[0] == illum_word()));
        }
        match key_of(head) {
            Some((key, arity)) => {
                if current.is_none() || toks.len() < 1 + arity {
                    return Err(ImportError::Malformed(line));
                }
                let args = copy_tokens(toks, 1, 1 + arity);
                let setting = MtlSetting { key, args, line };
                add_setting(current, setting);
                Ok(())
            },
            None => Ok(()),
        }
    }
}

/// Reads the text of an MTL file into its materials, in the order their
/// `newmtl` statements stand. The first statement that cannot be read
/// decides the error.
pub fn parse_mtl(text: &[u8]) -> (r: Result<Vec<MtlMaterial>, ImportError>)
    ensures
        match mtl_read(pieces(text@, 10)) {
            Ok(st) => r is Ok && done_view(r->Ok_0@) == materials_of(st),
            Err(e) => r == Err::<Vec<MtlMaterial>, ImportError>(e),
        },
{
    let lines = split_on(text, 10);
    let ghost all = pieces(text@, 10);
    let mut done: Vec<MtlMaterial> = Vec::new();
    let mut current: Option<MtlMaterial> = None;
    proof {
        assert(done_view(done@) =~= seq![]);
        assert(all.subrange(0, 0) =~= seq![]);
    }
    let mut k: usize = 0;
    while k < lines.len()
        invariant
            k <= lines@.len(),
            views(lines@) == all,
            all == pieces(text@, 10),
            mtl_read(all.subrange(0, k as int)) == Ok::<MtlRead, ImportError>(
                MtlRead { done: done_view(done@), current: current_view(current) },
            ),
        decreases lines@.len() - k,
    {
        let toks = split_tokens(lines[k].as_slice());
        proof {
            assert(all[k as int] == lines@[k as int]@);
            assert(all.subrange(0, k + 1).drop_last() =~= all.subrange(0, k as int));
            assert(all.subrange(0, k + 1).last() == all[k as int]);
        }
        match read_mtl_line(&mut done, &mut current, &toks, k + 1) {
            Ok(()) => {},
            Err(e) => {
                proof {
                    assert(mtl_read(all.subrange(0, k + 1)) == Err::<MtlRead, ImportError>(e));
                    lemma_mtl_read_error_stays(all, k + 1);
                }
                return Err(e);
            },
        }
        k = k + 1;
    }
    proof {
        assert(all.subrange(0, k as int) =~= all);
    }
    match current {
        Some(m) => {
            let ghost before = done@;
            done.push(m);
            proof {
                assert(done_view(done@) =~= done_view(before).push(m@));
            }
        },
        None => {},
    }
    Ok(done)
}

} // verus!
