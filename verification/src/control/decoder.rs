//! Decoding of raw input bytes into character codes.

use vstd::prelude::*;

verus! {

/// Input encodings understood by the decoders.
#[derive(Clone, Copy, Debug, PartialEq, Eq, Structural)]
pub enum InputEncoding {
    Default,
    Latin1,
    UTF8,
    Dbcs,
    ShiftJIS,
    HZ,
    ISO2022,
}

/// A continuation byte of UTF-8 (`10xxxxxx`).
pub open spec fn is_cont(b: u8) -> bool {
    0x80 <= b < 0xC0
}

/// The code and the number of bytes taken by the UTF-8 unit at the front of
/// `s`. Malformed, overlong, surrogate or out-of-range sequences yield the
/// code 128 and consume a single byte.
pub open spec fn utf8_unit(s: Seq<u8>) -> (i32, nat)
    recommends
        s.len() > 0,
{
    let b0 = s[0];
    if b0 < 0x80 {
        (b0 as i32, 1)
    } else if b0 < 0xC0 {
        (128, 1)
    } else if b0 < 0xE0 {
        if s.len() >= 2 && is_cont(s[1]) {
            let cp = (b0 - 0xC0) * 64 + (s[1] - 0x80);
            if cp >= 0x80 {
                (cp as i32, 2)
            } else {
                (128, 1)
            }
        } else {
            (128, 1)
        }
    } else if b0 < 0xF0 {
        if s.len() >= 3 && is_cont(s[1]) && is_cont(s[2]) {
            let cp = (b0 - 0xE0) * 4096 + (s[1] - 0x80) * 64 + (s[2] - 0x80);
            if cp >= 0x800 && !(0xD800 <= cp <= 0xDFFF) {
                (cp as i32, 3)
            } else {
                (128, 1)
            }
        } else {
            (128, 1)
        }
    } else if b0 < 0xF8 {
        if s.len() >= 4 && is_cont(s[1]) && is_cont(s[2]) && is_cont(s[3]) {
            let cp = (b0 - 0xF0) * 262144 + (s[1] - 0x80) * 4096 + (s[2] - 0x80) * 64 + (s[3]
                - 0x80);
            if 0x10000 <= cp <= 0x10FFFF {
                (cp as i32, 4)
            } else {
                (128, 1)
            }
        } else {
            (128, 1)
        }
    } else {
        (128, 1)
    }
}


/// The code and length of the DBCS unit at the front of `s`: bytes below
/// 0x80 stand alone, any other byte pairs with the next one when there is one.
pub open spec fn dbcs_unit(s: Seq<u8>) -> (i32, nat)
    recommends
        s.len() > 0,
{
    if s[0] < 0x80 {
        (s[0] as i32, 1)
    } else if s.len() >= 2 {
        ((s[0] * 256 + s[1]) as i32, 2)
    } else {
        (s[0] as i32, 1)
    }
}

/// Lead bytes of a Shift-JIS double-byte character.
pub open spec fn sjis_lead(b: u8) -> bool {
    (0x80 <= b <= 0x9F) || (0xE0 <= b <= 0xEF)
}

/// The code and length of the Shift-JIS unit at the front of `s`.
pub open spec fn sjis_unit(s: Seq<u8>) -> (i32, nat)
    recommends
        s.len() > 0,
{
    if sjis_lead(s[0]) && s.len() >= 2 {
        ((s[0] * 256 + s[1]) as i32, 2)
    } else {
        (s[0] as i32, 1)
    }
}

/// The code and length of the unit at the front of `s` for an encoding
/// without state (Latin-1, DBCS, Shift-JIS, and UTF-8 for all others).
pub open spec fn stateless_unit(enc: InputEncoding, s: Seq<u8>) -> (i32, nat)
    recommends
        s.len() > 0,
{
    match enc {
        InputEncoding::Latin1 => (s[0] as i32, 1),
        InputEncoding::Dbcs => dbcs_unit(s),
        InputEncoding::ShiftJIS => sjis_unit(s),
        _ => utf8_unit(s),
    }
}

/// Every unit takes at least one byte and no more than there are.
pub proof fn lemma_unit_len(enc: InputEncoding, s: Seq<u8>)
    requires
        s.len() > 0,
    ensures
        1 <= stateless_unit(enc, s).1 <= s.len(),
{
}

/// The codes that a stateless encoding gives for the bytes `s`.
pub open spec fn decode_stateless(enc: InputEncoding, s: Seq<u8>) -> Seq<i32>
    decreases s.len(),
{
    if s.len() == 0 {
        Seq::empty()
    } else {
        let (c, n) = stateless_unit(enc, s);
        proof {
            lemma_unit_len(enc, s);
        }
        seq![c] + decode_stateless(enc, s.skip(n as int))
    }
}

/// HZ decoding of `s`, starting in two-byte mode when `two` holds: the codes
/// and the mode in force at the end.
pub open spec fn hz_decode(s: Seq<u8>, two: bool) -> (Seq<i32>, bool)
    decreases s.len(),
{
    if s.len() == 0 {
        (Seq::empty(), two)
    } else if s[0] == 0x7E {
        if s.len() < 2 {
            (Seq::empty(), two)
        } else if s[1] == 0x7B {
            hz_decode(s.skip(2), true)
        } else if s[1] == 0x7D {
            hz_decode(s.skip(2), false)
        } else if s[1] == 0x7E {
            let r = hz_decode(s.skip(2), two);
            (seq![0x7Ei32] + r.0, r.1)
        } else {
            hz_decode(s.skip(2), two)
        }
    } else if two {
        if s.len() >= 2 {
            let r = hz_decode(s.skip(2), true);
            (seq![(s[0] * 256 + s[1]) as i32] + r.0, r.1)
        } else {
            (seq![s[0] as i32], false)
        }
    } else {
        let r = hz_decode(s.skip(1), false);
        (seq![s[0] as i32] + r.0, r.1)
    }
}

pub proof fn lemma_skip_skip<T>(s: Seq<T>, a: int, b: int)
    requires
        0 <= a,
        0 <= b,
        a + b <= s.len(),
    ensures
        s.skip(a).skip(b) == s.skip(a + b),
{
    assert(s.skip(a).skip(b) =~= s.skip(a + b));
}

/// What a decoder yields in one step: the first code of what remains, or
/// nothing when nothing remains.
pub open spec fn yields(before: Seq<i32>, after: Seq<i32>, r: Option<i32>) -> bool {
    if before.len() == 0 {
        r is None && after == before
    } else {
        r == Some(before[0]) && after == before.drop_first()
    }
}


/// The registers of an ISO 2022 decoder: the code base and the double-byte
/// flag of G0..G3, the registers invoked into the left (GL) and right (GR)
/// halves, and a pending single shift.
pub struct IsoModel {
    pub gn: Seq<i32>,
    pub gndbl: Seq<bool>,
    pub gl: usize,
    pub gr: usize,
    pub single_shift: Option<usize>,
}

impl IsoModel {
    pub open spec fn wf(self) -> bool {
        &&& self.gn.len() == 4
        &&& self.gndbl.len() == 4
        &&& self.gl < 4
        &&& self.gr < 4
        &&& (self.single_shift matches Some(r) ==> r < 4)
    }

    pub open spec fn with_ss(self, ss: Option<usize>) -> IsoModel {
        IsoModel { single_shift: ss, ..self }
    }

    pub open spec fn with_gl(self, gl: usize) -> IsoModel {
        IsoModel { gl: gl, ..self }
    }

    pub open spec fn with_gr(self, gr: usize) -> IsoModel {
        IsoModel { gr: gr, ..self }
    }

    pub open spec fn with_g(self, reg: int, base: i32, dbl: bool) -> IsoModel {
        IsoModel { gn: self.gn.update(reg, base), gndbl: self.gndbl.update(reg, dbl), ..self }
    }
}

/// The registers before any input: G1 holds the upper half of Latin-1, GL
/// is G0 and GR is G1.
pub open spec fn iso_default_model() -> IsoModel {
    IsoModel {
        gn: seq![0i32, 0x80i32, 0i32, 0i32],
        gndbl: seq![false, false, false, false],
        gl: 0,
        gr: 1,
        single_shift: None,
    }
}

/// Designation of register `reg` as a set of the given `kind` (94, 96 or
/// 9999 for 94x94) by the final byte at the front of `rest`: the bytes taken
/// and the new registers. The final bytes 'B' (94) and 'A' (96, 94x94) name
/// the base sets, whose code base is 0.
pub open spec fn iso_designate(rest: Seq<u8>, m: IsoModel, reg: int, kind: int) -> (nat, IsoModel) {
    if rest.len() == 0 {
        (0, m)
    } else {
        let d0 = rest[0];
        let d: int = if (kind == 94 && d0 == 0x42) || ((kind == 96 || kind == 9999) && d0 == 0x41) {
            0
        } else {
            d0 as int
        };
        if kind == 9999 {
            (1, m.with_g(reg, (d * 65536) as i32, true))
        } else if kind == 96 {
            (1, m.with_g(reg, (d * 65536 + 0x80) as i32, false))
        } else {
            (1, m.with_g(reg, (d * 65536) as i32, false))
        }
    }
}

/// The effect of an escape sequence whose first byte after ESC is `second`
/// and whose further bytes are `rest`: the bytes of `rest` taken and the new
/// registers.
pub open spec fn iso_escape(second: u8, rest: Seq<u8>, m: IsoModel) -> (nat, IsoModel) {
    if second == 0x24 {
        // ESC $ F: 94x94 sets
        if rest.len() == 0 {
            (0, m)
        } else {
            let ch = rest[0];
            let tail = rest.skip(1);
            let r = if ch == 0x28 {
                iso_designate(tail, m, 0, 9999)
            } else if ch == 0x29 {
                iso_designate(tail, m, 1, 9999)
            } else if ch == 0x2A {
                iso_designate(tail, m, 2, 9999)
            } else if ch == 0x2B {
                iso_designate(tail, m, 3, 9999)
            } else {
                (0nat, m.with_g(0, ((ch as int) * 65536) as i32, true))
            };
            (1 + r.0, r.1)
        }
    } else {
        let ch = second;
        if ch == 0x4E {
            (0, m.with_ss(Some(2)))
        } else if ch == 0x4F {
            (0, m.with_ss(Some(3)))
        } else if ch == 0x6E {
            (0, m.with_gl(2))
        } else if ch == 0x6F {
            (0, m.with_gl(3))
        } else if ch == 0x7E {
            (0, m.with_gr(1))
        } else if ch == 0x7D {
            (0, m.with_gr(2))
        } else if ch == 0x7C {
            (0, m.with_gr(3))
        } else if ch == 0x28 {
            iso_designate(rest, m, 0, 94)
        } else if ch == 0x29 {
            iso_designate(rest, m, 1, 94)
        } else if ch == 0x2A {
            iso_designate(rest, m, 2, 94)
        } else if ch == 0x2B {
            iso_designate(rest, m, 3, 94)
        } else if ch == 0x2D {
            iso_designate(rest, m, 1, 96)
        } else if ch == 0x2E {
            iso_designate(rest, m, 2, 96)
        } else if ch == 0x2F {
            iso_designate(rest, m, 3, 96)
        } else {
            (0, m)
        }
    }
}

/// The code of the graphic byte `ch`, followed by the bytes `rest`: the
/// code, the bytes of `rest` taken and the new registers. GL bytes use the
/// pending single shift (which they clear) or GL; GR bytes use GR.
pub open spec fn iso_char(ch: u8, rest: Seq<u8>, m: IsoModel) -> (i32, nat, IsoModel) {
    if 0x21 <= ch <= 0x7E {
        let reg: int = match m.single_shift {
            Some(r) => r as int,
            None => m.gl as int,
        };
        let m2 = m.with_ss(None);
        if m.gndbl[reg] && rest.len() > 0 {
            (m.gn[reg] | ((ch as i32) * 256) as i32 | (rest[0] as i32), 1, m2)
        } else {
            (m.gn[reg] | (ch as i32), 0, m2)
        }
    } else if 0xA0 <= ch {
        let reg = m.gr as int;
        if m.gndbl[reg] && rest.len() > 0 {
            (m.gn[reg] | ((ch as i32) * 256) as i32 | (rest[0] as i32), 1, m)
        } else {
            (m.gn[reg] | ((ch - 0x80) as i32), 0, m)
        }
    } else {
        (ch as i32, 0, m)
    }
}

/// One step of ISO 2022 decoding on the nonempty `s`: the code produced (if
/// any), the bytes taken and the new registers.
pub open spec fn iso_step(s: Seq<u8>, m: IsoModel) -> (Option<i32>, nat, IsoModel)
    recommends
        s.len() > 0,
{
    let ch = s[0];
    if ch == 0x0E {
        (None, 1, m.with_ss(None).with_gl(1))
    } else if ch == 0x0F {
        (None, 1, m.with_ss(None).with_gl(0))
    } else if ch == 0x8E {
        (None, 1, m.with_ss(Some(2)))
    } else if ch == 0x8F {
        (None, 1, m.with_ss(Some(3)))
    } else if ch == 27 {
        let m1 = m.with_ss(None);
        if s.len() < 2 {
            (None, 1, m1)
        } else {
            let (k, m2) = iso_escape(s[1], s.skip(2), m1);
            (None, 2 + k, m2)
        }
    } else {
        let (c, k, m2) = iso_char(ch, s.skip(1), m);
        (Some(c), 1 + k, m2)
    }
}

pub proof fn lemma_iso_step(s: Seq<u8>, m: IsoModel)
    requires
        s.len() > 0,
        m.wf(),
    ensures
        1 <= iso_step(s, m).1 <= s.len(),
        iso_step(s, m).2.wf(),
{
}

/// ISO 2022 decoding of `s` from the registers `m`: the codes and the
/// registers at the end.
pub open spec fn iso_decode(s: Seq<u8>, m: IsoModel) -> (Seq<i32>, IsoModel)
    decreases s.len(),
{
    if s.len() == 0 || !m.wf() {
        (Seq::empty(), m)
    } else {
        let (o, k, m2) = iso_step(s, m);
        proof {
            lemma_iso_step(s, m);
        }
        let r = iso_decode(s.skip(k as int), m2);
        match o {
            Some(c) => (seq![c] + r.0, r.1),
            None => r,
        }
    }
}


/// One ISO 2022 register set: its code base and whether it is double-byte.
#[derive(Clone, Copy, Debug)]
pub struct Iso2022GSet {
    pub base_code: i32,
    pub double_byte: bool,
}

/// The initial ISO 2022 registers that a control file sets up.
#[derive(Clone, Copy, Debug)]
pub struct Iso2022Settings {
    pub g_sets: [Option<Iso2022GSet>; 4],
    pub left_half: usize,
    pub right_half: usize,
}

impl Iso2022Settings {
    /// The halves name registers G0..G3.
    pub open spec fn wf(self) -> bool {
        self.left_half < 4 && self.right_half < 4
    }

    /// The registers these settings set up: the given sets (G registers
    /// without a set get base 0, single-byte), the given halves, no shift.
    pub open spec fn model(self) -> IsoModel {
        IsoModel {
            gn: Seq::new(4, |i: int| match self.g_sets@[i] {
                Some(g) => g.base_code,
                None => 0i32,
            }),
            gndbl: Seq::new(4, |i: int| match self.g_sets@[i] {
                Some(g) => g.double_byte,
                None => false,
            }),
            gl: self.left_half,
            gr: self.right_half,
            single_shift: None,
        }
    }
}

/// The registers with which decoding starts: those of the settings, or the
/// default ones.
pub open spec fn iso_initial(settings: Option<Iso2022Settings>) -> IsoModel {
    match settings {
        Some(s) => s.model(),
        None => iso_default_model(),
    }
}

/// Persistent decoder state for ISO 2022 encoding, preserved across calls.
#[derive(Debug)]
struct Iso2022State {
    gn: [i32; 4],
    gndbl: [bool; 4],
    gl: usize,
    gr: usize,
    single_shift: Option<usize>,
}

impl Iso2022State {
    spec fn model(self) -> IsoModel {
        IsoModel {
            gn: self.gn@,
            gndbl: self.gndbl@,
            gl: self.gl,
            gr: self.gr,
            single_shift: self.single_shift,
        }
    }

    fn default_state() -> (r: Self)
        ensures
            r.model() == iso_default_model(),
    {
        let r = Iso2022State {
            gn: [0, 0x80, 0, 0],
            gndbl: [false, false, false, false],
            gl: 0,
            gr: 1,
            single_shift: None,
        };
        assert(r.model().gn =~= iso_default_model().gn);
        assert(r.model().gndbl =~= iso_default_model().gndbl);
        r
    }

    fn from_settings(settings: &Iso2022Settings) -> (r: Self)
        ensures
            r.model() == settings.model(),
    {
        let mut gn = [0i32, 0, 0, 0];
        let mut gndbl = [false, false, false, false];
        let mut i: usize = 0;
        while i < 4
            invariant
                0 <= i <= 4,
                gn@.len() == 4,
                gndbl@.len() == 4,
                forall|j: int| 0 <= j < i ==> gn@[j] == settings.model().gn[j],
                forall|j: int| 0 <= j < i ==> gndbl@[j] == settings.model().gndbl[j],
                forall|j: int| i <= j < 4 ==> gn@[j] == 0 && !gndbl@[j],
            decreases 4 - i,
        {
            if let Some(gs) = settings.g_sets[i] {
                gn[i] = gs.base_code;
                gndbl[i] = gs.double_byte;
            }
            i += 1;
        }
        let r = Iso2022State {
            gn,
            gndbl,
            gl: settings.left_half,
            gr: settings.right_half,
            single_shift: None,
        };
        assert(r.model().gn =~= settings.model().gn);
        assert(r.model().gndbl =~= settings.model().gndbl);
        r
    }
}

/// Mutable decode context for ISO 2022, used within a single decode call.
struct Iso2022DecodeCtx {
    gn: [i32; 4],
    gndbl: [bool; 4],
    gl: usize,
    gr: usize,
    single_shift: Option<usize>,
    pos: usize,
}

impl Iso2022DecodeCtx {
    spec fn model(self) -> IsoModel {
        IsoModel {
            gn: self.gn@,
            gndbl: self.gndbl@,
            gl: self.gl,
            gr: self.gr,
            single_shift: self.single_shift,
        }
    }

    fn start(st: &Iso2022State) -> (r: Self)
        ensures
            r.model() == st.model(),
            r.pos == 0,
    {
        Iso2022DecodeCtx {
            gn: st.gn,
            gndbl: st.gndbl,
            gl: st.gl,
            gr: st.gr,
            single_shift: st.single_shift,
            pos: 0,
        }
    }

    fn finish(&self, st: &mut Iso2022State)
        ensures
            final(st).model() == self.model(),
    {
        st.gn = self.gn;
        st.gndbl = self.gndbl;
        st.gl = self.gl;
        st.gr = self.gr;
        st.single_shift = self.single_shift;
    }
}


/// A decoder that keeps its state between inputs: the HZ two-byte mode and
/// the ISO 2022 registers carry over from one call of `decode_bytes` to the
/// next, so that stateful encodings decode correctly across line
/// boundaries. An `EncodingDecoder`, by contrast, starts afresh on each
/// input.
#[derive(Debug)]
pub struct StreamingDecoder {
    encoding: InputEncoding,
    /// For HZ encoding: are we currently in two-byte mode?
    hz_two_byte: bool,
    /// For ISO 2022 encoding: persistent register state.
    iso2022_state: Iso2022State,
}

impl StreamingDecoder {
    /// The encoding the decoder reads.
    pub closed spec fn encoding(self) -> InputEncoding {
        self.encoding
    }

    /// Whether an HZ decoder is in two-byte mode.
    pub closed spec fn hz_mode(self) -> bool {
        self.hz_two_byte
    }

    /// The ISO 2022 registers.
    pub closed spec fn iso_registers(self) -> IsoModel {
        self.iso2022_state.model()
    }

    /// The ISO 2022 registers are well formed.
    pub open spec fn wf(self) -> bool {
        self.iso_registers().wf()
    }

    /// Create a new streaming decoder for the given encoding and ISO 2022
    /// settings.
    pub fn new(encoding: InputEncoding, iso2022: Option<&Iso2022Settings>) -> (r: Self)
        requires
            iso2022 matches Some(s) ==> s.wf(),
        ensures
            r.wf(),
            r.encoding() == encoding,
            !r.hz_mode(),
            r.iso_registers() == iso_initial(
                match iso2022 {
                    Some(s) => Some(*s),
                    None => None,
                },
            ),
    {
        let iso2022_state = match iso2022 {
            Some(s) => Iso2022State::from_settings(s),
            None => Iso2022State::default_state(),
        };
        StreamingDecoder { encoding, hz_two_byte: false, iso2022_state }
    }

    /// Decode a slice of bytes into character codes, preserving decoder
    /// state: stateless encodings decode each slice on its own, HZ and
    /// ISO 2022 go on from the mode and registers that the previous slice
    /// left.
    pub fn decode_bytes(&mut self, bytes: &[u8]) -> (r: Vec<i32>)
        requires
            old(self).wf(),
        ensures
            final(self).wf(),
            final(self).encoding() == old(self).encoding(),
            (r@, final(self).hz_mode(), final(self).iso_registers()) == stream_decode(
                old(self).encoding(),
                bytes@,
                old(self).hz_mode(),
                old(self).iso_registers(),
            ),
    {
        match self.encoding {
            InputEncoding::Default | InputEncoding::UTF8 => {
                proof {
                    lemma_decode_as_utf8(self.encoding, bytes@);
                }
                collect_stateless(bytes, InputEncoding::UTF8)
            },
            InputEncoding::Latin1 => { collect_stateless(bytes, InputEncoding::Latin1) },
            InputEncoding::Dbcs => { collect_stateless(bytes, InputEncoding::Dbcs) },
            InputEncoding::ShiftJIS => { collect_stateless(bytes, InputEncoding::ShiftJIS) },
            InputEncoding::HZ => self.decode_hz(bytes),
            InputEncoding::ISO2022 => self.decode_iso2022(bytes),
        }
    }

    fn decode_hz(&mut self, bytes: &[u8]) -> (r: Vec<i32>)
        ensures
            (r@, final(self).hz_two_byte) == hz_decode(bytes@, old(self).hz_two_byte),
            final(self).encoding == old(self).encoding,
            final(self).iso2022_state == old(self).iso2022_state,
            !old(self).hz_two_byte ==> r@ == decoded(
                InputEncoding::HZ,
                bytes@,
                old(self).iso2022_state.model(),
            ),
    {
        let mut result = Vec::new();
        let mut pos: usize = 0;
        proof {
            assert(bytes@.skip(0) =~= bytes@);
        }
        while pos < bytes.len()
            invariant
                pos <= bytes@.len(),
                self.encoding == old(self).encoding,
                self.iso2022_state == old(self).iso2022_state,
                ({
                    let total = hz_decode(bytes@, old(self).hz_two_byte);
                    let rest = hz_decode(bytes@.skip(pos as int), self.hz_two_byte);
                    total.0 == result@ + rest.0 && total.1 == rest.1
                }),
            ensures
                pos >= bytes@.len(),
                ({
                    let total = hz_decode(bytes@, old(self).hz_two_byte);
                    let rest = hz_decode(bytes@.skip(pos as int), self.hz_two_byte);
                    total.0 == result@ + rest.0 && total.1 == rest.1
                }),
            decreases bytes@.len() - pos,
        {
            let ghost s = bytes@.skip(pos as int);
            let ghost before = result@;
            if bytes[pos] == 0x7E {
                pos += 1;
                if pos >= bytes.len() {
                    proof {
                        assert(bytes@.skip(pos as int) =~= Seq::<u8>::empty());
                    }
                    break;
                }
                proof {
                    lemma_skip_skip(bytes@, pos - 1, 2);
                }
                match bytes[pos] {
                    0x7B => {
                        pos += 1;
                        self.hz_two_byte = true;
                    },
                    0x7D => {
                        pos += 1;
                        self.hz_two_byte = false;
                    },
                    0x7E => {
                        pos += 1;
                        result.push(0x7E);
                        proof {
                            assert(result@ + hz_decode(bytes@.skip(pos as int), self.hz_two_byte).0
                                =~= before + (seq![0x7Ei32] + hz_decode(
                                bytes@.skip(pos as int),
                                self.hz_two_byte,
                            ).0));
                        }
                    },
                    _ => {
                        pos += 1;
                    },
                }
                continue ;
            }
            if self.hz_two_byte {
                if pos + 1 < bytes.len() {
                    let hi = bytes[pos];
                    let lo = bytes[pos + 1];
                    proof {
                        lemma_skip_skip(bytes@, pos as int, 2);
                    }
                    pos += 2;
                    result.push(((hi as i32) * 256) + (lo as i32));
                    proof {
                        assert(result@ + hz_decode(bytes@.skip(pos as int), true).0 =~= before + (
                        seq![(hi * 256 + lo) as i32] + hz_decode(bytes@.skip(pos as int), true).0));
                    }
                } else {
                    result.push(bytes[pos] as i32);
                    pos += 1;
                    self.hz_two_byte = false;
                    proof {
                        assert(bytes@.skip(pos as int) =~= Seq::<u8>::empty());
                        assert(result@ =~= before + seq![s[0] as i32]);
                    }
                }
            } else {
                let b = bytes[pos];
                proof {
                    lemma_skip_skip(bytes@, pos as int, 1);
                }
                result.push(b as i32);
                pos += 1;
                proof {
                    assert(result@ + hz_decode(bytes@.skip(pos as int), false).0 =~= before + (
                    seq![b as i32] + hz_decode(bytes@.skip(pos as int), false).0));
                }
            }
        }
        proof {
            assert(bytes@.skip(pos as int) =~= Seq::<u8>::empty());
            assert(result@ + Seq::<i32>::empty() =~= result@);
        }
        result
    }
}

/// The codes of a stateless encoding for `bytes`.
fn collect_stateless(bytes: &[u8], enc: InputEncoding) -> (r: Vec<i32>)
    requires
        enc != InputEncoding::HZ,
        enc != InputEncoding::ISO2022,
    ensures
        r@ == decode_stateless(enc, bytes@),
{
    let mut dec = EncodingDecoder::new(bytes, enc, None);
    let mut result = Vec::new();
    loop
        invariant
            dec.wf(),
            dec.encoding() == enc,
            decode_stateless(enc, bytes@) == result@ + dec.remaining(),
        decreases dec.remaining().len(),
    {
        match dec.next() {
            Some(c) => {
                result.push(c);
                proof {
                    assert(decode_stateless(enc, bytes@) =~= result@ + dec.remaining());
                }
            },
            None => {
                assert(result@ + dec.remaining() =~= result@);
                return result;
            },
        }
    }
}

impl StreamingDecoder {
    fn decode_iso2022(&mut self, bytes: &[u8]) -> (r: Vec<i32>)
        requires
            old(self).iso2022_state.model().wf(),
        ensures
            (r@, final(self).iso2022_state.model()) == iso_decode(
                bytes@,
                old(self).iso2022_state.model(),
            ),
            final(self).iso2022_state.model().wf(),
            final(self).encoding == old(self).encoding,
            final(self).hz_two_byte == old(self).hz_two_byte,
            old(self).iso2022_state.model() == iso_default_model() && (forall|i: int|
                0 <= i < bytes@.len() ==> #[trigger] bytes@[i] != 0x0E && bytes@[i] != 0x0F
                    && bytes@[i] != 0x8E && bytes@[i] != 0x8F && bytes@[i] != 27) ==> r@
                == bytes@.map_values(|b: u8| b as i32) && final(self).iso2022_state.model()
                == iso_default_model(),
    {
        proof {
            if old(self).iso2022_state.model() == iso_default_model() && (forall|i: int|
                0 <= i < bytes@.len() ==> #[trigger] bytes@[i] != 0x0E && bytes@[i] != 0x0F
                    && bytes@[i] != 0x8E && bytes@[i] != 0x8F && bytes@[i] != 27) {
                lemma_iso_default_latin1(bytes@);
            }
        }
        let mut ctx = Iso2022DecodeCtx::start(&self.iso2022_state);
        let mut result = Vec::new();
        proof {
            assert(bytes@.skip(0) =~= bytes@);
        }
        while ctx.pos < bytes.len()
            invariant
                ctx.pos <= bytes@.len(),
                ctx.model().wf(),
                self.encoding == old(self).encoding,
                self.hz_two_byte == old(self).hz_two_byte,
                ({
                    let total = iso_decode(bytes@, old(self).iso2022_state.model());
                    let rest = iso_decode(bytes@.skip(ctx.pos as int), ctx.model());
                    total.0 == result@ + rest.0 && total.1 == rest.1
                }),
            decreases bytes@.len() - ctx.pos,
        {
            let ghost before = result@;
            let ghost p0 = ctx.pos;
            let out = Self::iso2022_step(bytes, &mut ctx);
            proof {
                lemma_skip_skip(bytes@, p0 as int, ctx.pos - p0);
            }
            if let Some(code) = out {
                result.push(code);
                proof {
                    assert(result@ + iso_decode(bytes@.skip(ctx.pos as int), ctx.model()).0
                        =~= before + (seq![code] + iso_decode(
                        bytes@.skip(ctx.pos as int),
                        ctx.model(),
                    ).0));
                }
            }
        }
        proof {
            assert(bytes@.skip(ctx.pos as int) =~= Seq::<u8>::empty());
            assert(result@ + Seq::<i32>::empty() =~= result@);
        }
        ctx.finish(&mut self.iso2022_state);
        result
    }

    /// Decode the unit that starts at `ctx.pos`: a shift or escape, which
    /// changes the registers, or a character, whose code is returned.
    fn iso2022_step(bytes: &[u8], ctx: &mut Iso2022DecodeCtx) -> (r: Option<i32>)
        requires
            old(ctx).model().wf(),
            old(ctx).pos < bytes@.len(),
        ensures
            ({
                let (o, k, m) = iso_step(bytes@.skip(old(ctx).pos as int), old(ctx).model());
                r == o && final(ctx).pos == old(ctx).pos + k && final(ctx).model() == m
            }),
            final(ctx).model().wf(),
            final(ctx).pos <= bytes@.len(),
    {
        let ghost p0 = ctx.pos;
        let ch = bytes[ctx.pos];
        ctx.pos += 1;
        proof {
            lemma_skip_skip(bytes@, p0 as int, 1);
        }
        let handled = match ch {
            0x0E => {
                ctx.single_shift = None;
                ctx.gl = 1;
                true
            },
            0x0F => {
                ctx.single_shift = None;
                ctx.gl = 0;
                true
            },
            0x8E => {
                ctx.single_shift = Some(2);
                true
            },
            0x8F => {
                ctx.single_shift = Some(3);
                true
            },
            27 => {
                ctx.single_shift = None;
                if ctx.pos >= bytes.len() {
                    return None;
                }
                let second = bytes[ctx.pos];
                ctx.pos += 1;
                proof {
                    lemma_skip_skip(bytes@, p0 as int, 2);
                }
                Self::handle_escape_iso2022(bytes, ctx, second)
            },
            _ => false,
        };
        if !handled {
            Self::decode_char_iso2022(bytes, ctx, ch)
        } else {
            None
        }
    }

    fn handle_escape_iso2022(bytes: &[u8], ctx: &mut Iso2022DecodeCtx, second: u8) -> (r: bool)
        requires
            old(ctx).model().wf(),
            old(ctx).pos <= bytes@.len(),
        ensures
            r,
            ({
                let (k, m) = iso_escape(second, bytes@.skip(old(ctx).pos as int), old(ctx).model());
                final(ctx).pos == old(ctx).pos + k && final(ctx).model() == m
            }),
            final(ctx).model().wf(),
            final(ctx).pos <= bytes@.len(),
    {
        let ghost p0 = ctx.pos;
        let (base, third) = if second == 0x24 {
            if ctx.pos >= bytes.len() {
                return true;
            }
            let t = bytes[ctx.pos];
            ctx.pos += 1;
            proof {
                lemma_skip_skip(bytes@, p0 as int, 1);
            }
            (0x200i32, Some(t))
        } else {
            (0x100i32, None)
        };
        let ch = third.unwrap_or(second);
        match (base, ch) {
            (0x100, 0x4E) => {
                ctx.single_shift = Some(2);
            },
            (0x100, 0x4F) => {
                ctx.single_shift = Some(3);
            },
            (0x100, 0x6E) => {
                ctx.gl = 2;
            },
            (0x100, 0x6F) => {
                ctx.gl = 3;
            },
            (0x100, 0x7E) => {
                ctx.gr = 1;
            },
            (0x100, 0x7D) => {
                ctx.gr = 2;
            },
            (0x100, 0x7C) => {
                ctx.gr = 3;
            },
            (0x100, 0x28) => {
                Self::designate_iso2022(bytes, ctx, 0, 94);
                return true;
            },
            (0x100, 0x29) => {
                Self::designate_iso2022(bytes, ctx, 1, 94);
                return true;
            },
            (0x100, 0x2A) => {
                Self::designate_iso2022(bytes, ctx, 2, 94);
                return true;
            },
            (0x100, 0x2B) => {
                Self::designate_iso2022(bytes, ctx, 3, 94);
                return true;
            },
            (0x100, 0x2D) => {
                Self::designate_iso2022(bytes, ctx, 1, 96);
                return true;
            },
            (0x100, 0x2E) => {
                Self::designate_iso2022(bytes, ctx, 2, 96);
                return true;
            },
            (0x100, 0x2F) => {
                Self::designate_iso2022(bytes, ctx, 3, 96);
                return true;
            },
            (0x200, 0x28) => {
                Self::designate_iso2022(bytes, ctx, 0, 9999);
                return true;
            },
            (0x200, 0x29) => {
                Self::designate_iso2022(bytes, ctx, 1, 9999);
                return true;
            },
            (0x200, 0x2A) => {
                Self::designate_iso2022(bytes, ctx, 2, 9999);
                return true;
            },
            (0x200, 0x2B) => {
                Self::designate_iso2022(bytes, ctx, 3, 9999);
                return true;
            },
            _ if base == 0x200 => {
                ctx.gn[0] = (ch as i32) * 65536;
                ctx.gndbl[0] = true;
                proof {
                    let m = old(ctx).model().with_g(0, ((ch as int) * 65536) as i32, true);
                    assert(ctx.model().gn =~= m.gn);
                    assert(ctx.model().gndbl =~= m.gndbl);
                }
                return true;
            },
            _ => {},
        }
        true
    }

    fn designate_iso2022(bytes: &[u8], ctx: &mut Iso2022DecodeCtx, reg: usize, kind: i32)
        requires
            old(ctx).model().wf(),
            old(ctx).pos <= bytes@.len(),
            reg < 4,
            kind == 94 || kind == 96 || kind == 9999,
        ensures
            ({
                let (k, m) = iso_designate(
                    bytes@.skip(old(ctx).pos as int),
                    old(ctx).model(),
                    reg as int,
                    kind as int,
                );
                final(ctx).pos == old(ctx).pos + k && final(ctx).model() == m
            }),
            final(ctx).model().wf(),
            final(ctx).pos <= bytes@.len(),
    {
        if ctx.pos >= bytes.len() {
            return ;
        }
        let d = bytes[ctx.pos] as i32;
        ctx.pos += 1;
        let mut d = d;
        if (kind == 94 && d == 0x42) || ((kind == 96 || kind == 9999) && d == 0x41) {
            d = 0;
        }
        if kind == 9999 {
            ctx.gn[reg] = d * 65536;
            ctx.gndbl[reg] = true;
        } else if kind == 96 {
            ctx.gn[reg] = d * 65536 + 0x80;
            ctx.gndbl[reg] = false;
        } else {
            ctx.gn[reg] = d * 65536;
            ctx.gndbl[reg] = false;
        }
        proof {
            let (k, m) = iso_designate(
                bytes@.skip(old(ctx).pos as int),
                old(ctx).model(),
                reg as int,
                kind as int,
            );
            assert(ctx.model().gn =~= m.gn);
            assert(ctx.model().gndbl =~= m.gndbl);
        }
    }

    fn decode_char_iso2022(bytes: &[u8], ctx: &mut Iso2022DecodeCtx, ch: u8) -> (r: Option<i32>)
        requires
            old(ctx).model().wf(),
            old(ctx).pos <= bytes@.len(),
        ensures
            ({
                let (c, k, m) = iso_char(ch, bytes@.skip(old(ctx).pos as int), old(ctx).model());
                r == Some(c) && final(ctx).pos == old(ctx).pos + k && final(ctx).model() == m
            }),
            final(ctx).model().wf(),
            final(ctx).pos <= bytes@.len(),
    {
        if 0x21 <= ch && ch <= 0x7E {
            let gl_reg = ctx.single_shift.take().unwrap_or(ctx.gl);
            if ctx.gndbl[gl_reg] {
                if ctx.pos < bytes.len() {
                    let ch2 = bytes[ctx.pos] as i32;
                    ctx.pos += 1;
                    Some(ctx.gn[gl_reg] | ((ch as i32) * 256) | ch2)
                } else {
                    Some(ctx.gn[gl_reg] | (ch as i32))
                }
            } else {
                Some(ctx.gn[gl_reg] | (ch as i32))
            }
        } else if 0xA0 <= ch {
            if ctx.gndbl[ctx.gr] {
                if ctx.pos < bytes.len() {
                    let ch2 = bytes[ctx.pos] as i32;
                    ctx.pos += 1;
                    Some(ctx.gn[ctx.gr] | ((ch as i32) * 256) | ch2)
                } else {
                    Some(ctx.gn[ctx.gr] | ((ch - 0x80) as i32))
                }
            } else {
                Some(ctx.gn[ctx.gr] | ((ch - 0x80) as i32))
            }
        } else {
            Some(ch as i32)
        }
    }
}

/// The codes that `enc` gives for the bytes `s`, starting from the ISO 2022
/// registers `m` (HZ starts in one-byte mode).
pub open spec fn decoded(enc: InputEncoding, s: Seq<u8>, m: IsoModel) -> Seq<i32> {
    match enc {
        InputEncoding::HZ => hz_decode(s, false).0,
        InputEncoding::ISO2022 => iso_decode(s, m).0,
        e => decode_stateless(e, s),
    }
}

/// What a streaming decoder gives for the bytes `s` from the HZ mode `two`
/// and the ISO 2022 registers `m`: the codes, and the mode and registers it
/// leaves. Stateless encodings leave both as they were.
pub open spec fn stream_decode(enc: InputEncoding, s: Seq<u8>, two: bool, m: IsoModel) -> (Seq<i32>, bool, IsoModel) {
    match enc {
        InputEncoding::HZ => (hz_decode(s, two).0, hz_decode(s, two).1, m),
        InputEncoding::ISO2022 => (iso_decode(s, m).0, two, iso_decode(s, m).1),
        e => (decode_stateless(e, s), two, m),
    }
}

pub proof fn lemma_yields_first(c: i32, rest: Seq<i32>)
    ensures
        yields(seq![c] + rest, rest, Some(c)),
{
    assert((seq![c] + rest).drop_first() =~= rest);
}

/// Every encoding other than Latin-1, DBCS, Shift-JIS, HZ and ISO 2022
/// decodes as UTF-8.
pub proof fn lemma_decode_as_utf8(enc: InputEncoding, s: Seq<u8>)
    requires
        enc == InputEncoding::Default || enc == InputEncoding::UTF8,
    ensures
        decode_stateless(enc, s) == decode_stateless(InputEncoding::UTF8, s),
    decreases s.len(),
{
    if s.len() > 0 {
        let (c, n) = stateless_unit(enc, s);
        lemma_unit_len(enc, s);
        lemma_decode_as_utf8(enc, s.skip(n as int));
    }
}

/// The unit at `pos` is followed by the rest of the decoding.
pub proof fn lemma_stateless_step(enc: InputEncoding, s: Seq<u8>, pos: int)
    requires
        0 <= pos < s.len(),
    ensures
        ({
            let (c, n) = stateless_unit(enc, s.skip(pos));
            &&& pos + n <= s.len()
            &&& decode_stateless(enc, s.skip(pos)) == seq![c] + decode_stateless(
                enc,
                s.skip(pos + n),
            )
            &&& yields(
                decode_stateless(enc, s.skip(pos)),
                decode_stateless(enc, s.skip(pos + n)),
                Some(c),
            )
        }),
{
    let (c, n) = stateless_unit(enc, s.skip(pos));
    lemma_unit_len(enc, s.skip(pos));
    lemma_skip_skip(s, pos, n as int);
    lemma_yields_first(c, decode_stateless(enc, s.skip(pos + n)));
}

/// Decoder that turns raw bytes into character codes according to the given
/// encoding, one code per `next()` call.
pub struct EncodingDecoder<'a> {
    bytes: &'a [u8],
    encoding: InputEncoding,
    pos: usize,
    /// For HZ encoding: are we currently in two-byte mode?
    hz_two_byte: bool,
    /// For ISO 2022 encoding: the registers.
    iso2022: Iso2022State,
}

impl<'a> EncodingDecoder<'a> {
    pub closed spec fn encoding(self) -> InputEncoding {
        self.encoding
    }

    pub closed spec fn wf(self) -> bool {
        self.pos <= self.bytes@.len() && self.iso2022.model().wf()
    }

    /// The codes that the decoder has yet to yield.
    pub closed spec fn remaining(self) -> Seq<i32> {
        let rest = self.bytes@.skip(self.pos as int);
        match self.encoding {
            InputEncoding::HZ => hz_decode(rest, self.hz_two_byte).0,
            InputEncoding::ISO2022 => iso_decode(rest, self.iso2022.model()).0,
            e => decode_stateless(e, rest),
        }
    }

    spec fn step(self, next: Self, r: Option<i32>) -> bool {
        &&& next.wf()
        &&& next.encoding == self.encoding
        &&& yields(self.remaining(), next.remaining(), r)
    }

    /// A decoder that will yield exactly the codes of `bytes` in `encoding`.
    pub fn new(bytes: &'a [u8], encoding: InputEncoding, iso2022: Option<&'a Iso2022Settings>) -> (r: Self)
        requires
            iso2022 matches Some(s) ==> s.wf(),
        ensures
            r.wf(),
            r.encoding() == encoding,
            r.remaining() == decoded(
                encoding,
                bytes@,
                iso_initial(
                    match iso2022 {
                        Some(s) => Some(*s),
                        None => None,
                    },
                ),
            ),
    {
        let iso2022 = match iso2022 {
            Some(s) => Iso2022State::from_settings(s),
            None => Iso2022State::default_state(),
        };
        let r = Self { bytes, encoding, pos: 0, hz_two_byte: false, iso2022 };
        assert(bytes@.skip(0) =~= bytes@);
        r
    }

    /// Yield the next code, or `None` once the input is exhausted.
    pub fn next(&mut self) -> (r: Option<i32>)
        requires
            old(self).wf(),
        ensures
            final(self).wf(),
            final(self).encoding() == old(self).encoding(),
            yields(old(self).remaining(), final(self).remaining(), r),
    {
        match self.encoding {
            InputEncoding::Default => self.next_utf8(),
            InputEncoding::Latin1 => self.next_latin1(),
            InputEncoding::UTF8 => self.next_utf8(),
            InputEncoding::Dbcs => self.next_dbcs(),
            InputEncoding::ShiftJIS => self.next_shiftjis(),
            InputEncoding::HZ => self.next_hz(),
            InputEncoding::ISO2022 => self.next_iso2022(),
        }
    }

    fn next_latin1(&mut self) -> (r: Option<i32>)
        requires
            old(self).wf(),
            old(self).encoding == InputEncoding::Latin1,
        ensures
            old(self).step(*final(self), r),
    {
        if self.pos >= self.bytes.len() {
            assert(self.bytes@.skip(self.pos as int) =~= Seq::<u8>::empty());
            return None;
        }
        let b = self.bytes[self.pos];
        proof {
            lemma_stateless_step(self.encoding, self.bytes@, self.pos as int);
        }
        self.pos += 1;
        Some(b as i32)
    }

    fn next_utf8(&mut self) -> (r: Option<i32>)
        requires
            old(self).wf(),
            old(self).encoding == InputEncoding::UTF8 || old(self).encoding
                == InputEncoding::Default,
        ensures
            old(self).step(*final(self), r),
            ({
                let rest = old(self).bytes@.skip(old(self).pos as int);
                &&& rest.len() == 0 ==> r is None
                &&& rest.len() > 0 ==> r == Some(utf8_unit(rest).0) && final(self).pos == old(
                    self,
                ).pos + utf8_unit(rest).1
            }),
    {
        if self.pos >= self.bytes.len() {
            assert(self.bytes@.skip(self.pos as int) =~= Seq::<u8>::empty());
            return None;
        }
        let p = self.pos;
        let rem = self.bytes.len() - p;
        let first = self.bytes[p];

        let (code, consumed): (i32, usize) = if first < 0x80 {
            (first as i32, 1)
        } else if first < 0xC0 {
            (128, 1)
        } else if first < 0xE0 {
            if rem >= 2 && 0x80 <= self.bytes[p + 1] && self.bytes[p + 1] < 0xC0 {
                let hi = (first - 0xC0) as u32;
                let lo = (self.bytes[p + 1] - 0x80) as u32;
                let cp = hi * 64 + lo;
                if cp >= 0x80 {
                    (cp as i32, 2)
                } else {
                    (128, 1)
                }
            } else {
                (128, 1)
            }
        } else if first < 0xF0 {
            if rem >= 3 && 0x80 <= self.bytes[p + 1] && self.bytes[p + 1] < 0xC0 && 0x80
                <= self.bytes[p + 2] && self.bytes[p + 2] < 0xC0 {
                let hi = (first - 0xE0) as u32;
                let mid = (self.bytes[p + 1] - 0x80) as u32;
                let lo = (self.bytes[p + 2] - 0x80) as u32;
                let cp = hi * 4096 + mid * 64 + lo;
                if cp >= 0x800 && !(0xD800 <= cp && cp <= 0xDFFF) {
                    (cp as i32, 3)
                } else {
                    (128, 1)
                }
            } else {
                (128, 1)
            }
        } else if first < 0xF8 {
            if rem >= 4 && 0x80 <= self.bytes[p + 1] && self.bytes[p + 1] < 0xC0 && 0x80
                <= self.bytes[p + 2] && self.bytes[p + 2] < 0xC0 && 0x80 <= self.bytes[p + 3]
                && self.bytes[p + 3] < 0xC0 {
                let hi = (first - 0xF0) as u32;
                let mid1 = (self.bytes[p + 1] - 0x80) as u32;
                let mid2 = (self.bytes[p + 2] - 0x80) as u32;
                let lo = (self.bytes[p + 3] - 0x80) as u32;
                let cp = hi * 262144 + mid1 * 4096 + mid2 * 64 + lo;
                if 0x10000 <= cp && cp <= 0x10FFFF {
                    (cp as i32, 4)
                } else {
                    (128, 1)
                }
            } else {
                (128, 1)
            }
        } else {
            (128, 1)
        };
        proof {
            let s = self.bytes@.skip(p as int);
            assert(utf8_unit(s) == (code, consumed as nat));
            lemma_stateless_step(self.encoding, self.bytes@, p as int);
        }
        self.pos += consumed;
        Some(code)
    }

    fn next_dbcs(&mut self) -> (r: Option<i32>)
        requires
            old(self).wf(),
            old(self).encoding == InputEncoding::Dbcs,
        ensures
            old(self).step(*final(self), r),
    {
        if self.pos >= self.bytes.len() {
            assert(self.bytes@.skip(self.pos as int) =~= Seq::<u8>::empty());
            return None;
        }
        proof {
            lemma_stateless_step(self.encoding, self.bytes@, self.pos as int);
        }
        let b = self.bytes[self.pos];

        if b < 0x80 {
            self.pos += 1;
            Some(b as i32)
        } else if self.pos + 1 < self.bytes.len() {
            let hi = b;
            let lo = self.bytes[self.pos + 1];
            self.pos += 2;
            Some((hi as i32) * 256 + (lo as i32))
        } else {
            self.pos += 1;
            Some(b as i32)
        }
    }

    fn next_shiftjis(&mut self) -> (r: Option<i32>)
        requires
            old(self).wf(),
            old(self).encoding == InputEncoding::ShiftJIS,
        ensures
            old(self).step(*final(self), r),
    {
        if self.pos >= self.bytes.len() {
            assert(self.bytes@.skip(self.pos as int) =~= Seq::<u8>::empty());
            return None;
        }
        proof {
            lemma_stateless_step(self.encoding, self.bytes@, self.pos as int);
        }
        let b = self.bytes[self.pos];

        let is_high_byte = (0x80 <= b && b <= 0x9F) || (0xE0 <= b && b <= 0xEF);

        if is_high_byte && self.pos + 1 < self.bytes.len() {
            let hi = b;
            let lo = self.bytes[self.pos + 1];
            self.pos += 2;
            Some((hi as i32) * 256 + (lo as i32))
        } else {
            self.pos += 1;
            Some(b as i32)
        }
    }

    fn next_hz(&mut self) -> (r: Option<i32>)
        requires
            old(self).wf(),
            old(self).encoding == InputEncoding::HZ,
        ensures
            old(self).step(*final(self), r),
    {
        loop
            invariant
                self.wf(),
                self.encoding == InputEncoding::HZ,
                old(self).encoding == InputEncoding::HZ,
                self.bytes == old(self).bytes,
                self.iso2022 == old(self).iso2022,
                self.remaining() == old(self).remaining(),
            decreases self.bytes@.len() - self.pos,
        {
            if self.pos >= self.bytes.len() {
                assert(self.bytes@.skip(self.pos as int) =~= Seq::<u8>::empty());
                return None;
            }
            let ghost p0 = self.pos;
            if self.bytes[self.pos] == 0x7E {
                self.pos += 1;
                if self.pos >= self.bytes.len() {
                    // Lone tilde at end of input: consume silently
                    assert(self.bytes@.skip(self.pos as int) =~= Seq::<u8>::empty());
                    continue ;
                }
                proof {
                    lemma_skip_skip(self.bytes@, p0 as int, 2);
                }
                match self.bytes[self.pos] {
                    0x7B => {
                        self.pos += 1;
                        self.hz_two_byte = true;
                        continue ;
                    },
                    0x7D => {
                        self.pos += 1;
                        self.hz_two_byte = false;
                        continue ;
                    },
                    0x7E => {
                        self.pos += 1;
                        proof {
                            lemma_yields_first(
                                0x7E,
                                hz_decode(self.bytes@.skip(self.pos as int), self.hz_two_byte).0,
                            );
                        }
                        return Some(0x7E);
                    },
                    _ => {
                        // All other ~X sequences are removed from input
                        self.pos += 1;
                        continue ;
                    },
                }
            }
            if self.hz_two_byte {
                if self.pos + 1 < self.bytes.len() {
                    let hi = self.bytes[self.pos];
                    let lo = self.bytes[self.pos + 1];
                    proof {
                        lemma_skip_skip(self.bytes@, p0 as int, 2);
                    }
                    self.pos += 2;
                    proof {
                        lemma_yields_first(
                            (hi * 256 + lo) as i32,
                            hz_decode(self.bytes@.skip(self.pos as int), true).0,
                        );
                    }
                    return Some((hi as i32) * 256 + (lo as i32));
                } else {
                    let b = self.bytes[self.pos];
                    self.pos += 1;
                    self.hz_two_byte = false;
                    assert(self.bytes@.skip(self.pos as int) =~= Seq::<u8>::empty());
                    proof {
                        lemma_yields_first(b as i32, Seq::empty());
                        assert(seq![b as i32] + Seq::<i32>::empty() =~= seq![b as i32]);
                    }
                    return Some(b as i32);
                }
            } else {
                let b = self.bytes[self.pos];
                proof {
                    lemma_skip_skip(self.bytes@, p0 as int, 1);
                }
                self.pos += 1;
                proof {
                    lemma_yields_first(
                        b as i32,
                        hz_decode(self.bytes@.skip(self.pos as int), false).0,
                    );
                }
                return Some(b as i32);
            }
        }
    }

    fn next_iso2022(&mut self) -> (r: Option<i32>)
        requires
            old(self).wf(),
            old(self).encoding == InputEncoding::ISO2022,
        ensures
            old(self).step(*final(self), r),
    {
        let mut ctx = Iso2022DecodeCtx::start(&self.iso2022);
        ctx.pos = self.pos;
        while ctx.pos < self.bytes.len()
            invariant
                ctx.pos <= self.bytes@.len(),
                ctx.model().wf(),
                self.bytes == old(self).bytes,
                self.encoding == InputEncoding::ISO2022,
                old(self).encoding == InputEncoding::ISO2022,
                self.pos == old(self).pos,
                self.iso2022 == old(self).iso2022,
                self.hz_two_byte == old(self).hz_two_byte,
                iso_decode(self.bytes@.skip(ctx.pos as int), ctx.model()).0 == old(
                    self,
                ).remaining(),
            decreases self.bytes@.len() - ctx.pos,
        {
            let ghost p0 = ctx.pos;
            let out = StreamingDecoder::iso2022_step(self.bytes, &mut ctx);
            proof {
                lemma_skip_skip(self.bytes@, p0 as int, ctx.pos - p0);
            }
            if out.is_some() {
                self.pos = ctx.pos;
                ctx.finish(&mut self.iso2022);
                proof {
                    lemma_yields_first(
                        out.unwrap(),
                        iso_decode(self.bytes@.skip(ctx.pos as int), ctx.model()).0,
                    );
                }
                return out;
            }
        }
        assert(self.bytes@.skip(ctx.pos as int) =~= Seq::<u8>::empty());
        self.pos = ctx.pos;
        ctx.finish(&mut self.iso2022);
        None
    }
}


/// A fresh streaming decoder gives for its first bytes what a decoder over
/// those bytes yields.
pub proof fn lemma_fresh_stream(enc: InputEncoding, s: Seq<u8>, settings: Option<Iso2022Settings>)
    ensures
        stream_decode(enc, s, false, iso_initial(settings)).0 == decoded(enc, s, iso_initial(settings)),
{
}

/// Latin-1 gives each byte as its own code.
pub proof fn lemma_latin1_identity(s: Seq<u8>)
    ensures
        decode_stateless(InputEncoding::Latin1, s) == s.map_values(|b: u8| b as i32),
    decreases s.len(),
{
    if s.len() > 0 {
        lemma_latin1_identity(s.skip(1));
        assert(s.map_values(|b: u8| b as i32) =~= seq![s[0] as i32] + s.skip(1).map_values(
            |b: u8| b as i32,
        ));
    }
}

/// The bytes `a` end with a single-byte character (or are empty).
pub open spec fn ends_ascii(a: Seq<u8>) -> bool {
    a.len() == 0 || a.last() < 0x80
}

/// A unit that starts in `a` lies in `a` whatever follows, when `a` ends
/// with a single-byte character.
proof fn lemma_unit_prefix(enc: InputEncoding, a: Seq<u8>, b: Seq<u8>)
    requires
        a.len() > 0,
        ends_ascii(a),
    ensures
        stateless_unit(enc, a + b) == stateless_unit(enc, a),
{
    let s = a + b;
    let n = a.len();
    assert(s[n - 1] == a[n - 1]);
    assert(s[0] == a[0]);
    if n >= 2 {
        assert(s[1] == a[1]);
    }
    if n >= 3 {
        assert(s[2] == a[2]);
    }
    if n >= 4 {
        assert(s[3] == a[3]);
    }
}

/// Decoding a stateless encoding in two pieces, the first ending with a
/// single-byte character, gives the codes of decoding the whole.
pub proof fn lemma_stateless_concat(enc: InputEncoding, a: Seq<u8>, b: Seq<u8>)
    requires
        ends_ascii(a),
    ensures
        decode_stateless(enc, a + b) == decode_stateless(enc, a) + decode_stateless(enc, b),
    decreases a.len(),
{
    if a.len() == 0 {
        assert(a + b =~= b);
        assert(decode_stateless(enc, a) + decode_stateless(enc, b) =~= decode_stateless(enc, b));
    } else {
        lemma_unit_prefix(enc, a, b);
        lemma_unit_len(enc, a);
        let (c, n) = stateless_unit(enc, a);
        assert((a + b).skip(n as int) =~= a.skip(n as int) + b);
        if a.skip(n as int).len() > 0 {
            assert(a.skip(n as int).last() == a.last());
        }
        lemma_stateless_concat(enc, a.skip(n as int), b);
        assert(seq![c] + (decode_stateless(enc, a.skip(n as int)) + decode_stateless(enc, b)) =~= (
        seq![c] + decode_stateless(enc, a.skip(n as int))) + decode_stateless(enc, b));
    }
}

/// HZ decoding of `s` from the mode `two` never stops inside an escape or a
/// two-byte character.
pub open spec fn hz_clean(s: Seq<u8>, two: bool) -> bool
    decreases s.len(),
{
    if s.len() == 0 {
        true
    } else if s[0] == 0x7E {
        s.len() >= 2 && hz_clean(
            s.skip(2),
            if s[1] == 0x7B {
                true
            } else if s[1] == 0x7D {
                false
            } else {
                two
            },
        )
    } else if two {
        s.len() >= 2 && hz_clean(s.skip(2), true)
    } else {
        hz_clean(s.skip(1), false)
    }
}

/// Decoding HZ in two pieces, the first ending between units, gives the
/// codes of decoding the whole; the mode carries over from one piece to
/// the next.
pub proof fn lemma_hz_concat(a: Seq<u8>, b: Seq<u8>, two: bool)
    requires
        hz_clean(a, two),
    ensures
        ({
            let (c1, t1) = hz_decode(a, two);
            let (c2, t2) = hz_decode(b, t1);
            hz_decode(a + b, two) == (c1 + c2, t2)
        }),
    decreases a.len(),
{
    let s = a + b;
    if a.len() == 0 {
        assert(s =~= b);
        assert(hz_decode(a, two).0 + hz_decode(b, two).0 =~= hz_decode(b, two).0);
    } else {
        assert(s[0] == a[0]);
        if a[0] == 0x7E || two {
            assert(s[1] == a[1]);
            assert(s.skip(2) =~= a.skip(2) + b);
            let t = if a[0] == 0x7E {
                if a[1] == 0x7B {
                    true
                } else if a[1] == 0x7D {
                    false
                } else {
                    two
                }
            } else {
                true
            };
            lemma_hz_concat(a.skip(2), b, t);
            let (c2, t2) = hz_decode(b, hz_decode(a, two).1);
            let r = hz_decode(a.skip(2), t);
            if a[0] == 0x7E && a[1] == 0x7E {
                assert(seq![0x7Ei32] + (r.0 + c2) =~= (seq![0x7Ei32] + r.0) + c2);
            } else if a[0] != 0x7E {
                let c = (a[0] * 256 + a[1]) as i32;
                assert(seq![c] + (r.0 + c2) =~= (seq![c] + r.0) + c2);
            }
        } else {
            assert(s.skip(1) =~= a.skip(1) + b);
            lemma_hz_concat(a.skip(1), b, false);
            let (c2, t2) = hz_decode(b, hz_decode(a, two).1);
            let r = hz_decode(a.skip(1), false);
            assert(seq![a[0] as i32] + (r.0 + c2) =~= (seq![a[0] as i32] + r.0) + c2);
        }
    }
}

/// One ISO 2022 step on the nonempty `s` needs no byte beyond `s`.
pub open spec fn iso_step_clean(s: Seq<u8>, m: IsoModel) -> bool {
    let ch = s[0];
    if ch == 0x0E || ch == 0x0F || ch == 0x8E || ch == 0x8F {
        true
    } else if ch == 27 {
        s.len() >= 2 && {
            let second = s[1];
            if second == 0x24 {
                s.len() >= 3 && ((0x28 <= s[2] <= 0x2B) ==> s.len() >= 4)
            } else if second == 0x28 || second == 0x29 || second == 0x2A || second == 0x2B
                || second == 0x2D || second == 0x2E || second == 0x2F {
                s.len() >= 3
            } else {
                true
            }
        }
    } else if 0x21 <= ch <= 0x7E {
        let reg: int = match m.single_shift {
            Some(r) => r as int,
            None => m.gl as int,
        };
        m.gndbl[reg] ==> s.len() >= 2
    } else if 0xA0 <= ch {
        m.gndbl[m.gr as int] ==> s.len() >= 2
    } else {
        true
    }
}

/// ISO 2022 decoding of `s` from the registers `m` never stops inside an
/// escape sequence or a two-byte character.
pub open spec fn iso_clean(s: Seq<u8>, m: IsoModel) -> bool
    decreases s.len(),
{
    if s.len() == 0 || !m.wf() {
        true
    } else {
        let (o, k, m2) = iso_step(s, m);
        proof {
            lemma_iso_step(s, m);
        }
        iso_step_clean(s, m) && iso_clean(s.skip(k as int), m2)
    }
}

/// A step that needs no byte beyond `a` is the same whatever follows `a`.
proof fn lemma_iso_step_prefix(a: Seq<u8>, b: Seq<u8>, m: IsoModel)
    requires
        a.len() > 0,
        m.wf(),
        iso_step_clean(a, m),
    ensures
        iso_step(a + b, m) == iso_step(a, m),
{
    let s = a + b;
    assert(s[0] == a[0]);
    assert(s.skip(1) =~= a.skip(1) + b);
    if a.len() >= 2 {
        assert(s.skip(2) =~= a.skip(2) + b);
        assert(s[1] == a[1]);
        assert(s.skip(1)[0] == a.skip(1)[0]);
    }
    if a.len() >= 3 {
        assert(s.skip(2)[0] == a.skip(2)[0]);
        assert(s.skip(2).skip(1) =~= a.skip(2).skip(1) + b);
    }
    if a.len() >= 4 {
        assert(s.skip(2).skip(1)[0] == a.skip(2).skip(1)[0]);
    }
}

/// Decoding ISO 2022 in two pieces, the first ending between units, gives
/// the codes of decoding the whole; the registers carry over from one piece
/// to the next.
pub proof fn lemma_iso_concat(a: Seq<u8>, b: Seq<u8>, m: IsoModel)
    requires
        iso_clean(a, m),
    ensures
        ({
            let (c1, m1) = iso_decode(a, m);
            let (c2, m2) = iso_decode(b, m1);
            iso_decode(a + b, m) == (c1 + c2, m2)
        }),
    decreases a.len(),
{
    let s = a + b;
    if a.len() == 0 {
        assert(s =~= b);
        assert(iso_decode(a, m).0 + iso_decode(b, m).0 =~= iso_decode(b, m).0);
    } else if !m.wf() {
        assert(iso_decode(a, m).0 + iso_decode(b, m).0 =~= Seq::<i32>::empty());
    } else {
        lemma_iso_step(a, m);
        lemma_iso_step_prefix(a, b, m);
        let (o, k, m2) = iso_step(a, m);
        assert(s.skip(k as int) =~= a.skip(k as int) + b);
        lemma_iso_concat(a.skip(k as int), b, m2);
        let r = iso_decode(a.skip(k as int), m2);
        let (c2, mm) = iso_decode(b, r.1);
        match o {
            Some(c) => {
                assert(seq![c] + (r.0 + c2) =~= (seq![c] + r.0) + c2);
            },
            None => {},
        }
    }
}


/// The UTF-8 encoding of the character `c` in arithmetic form: one to four
/// bytes.
pub open spec fn utf8_bytes(c: char) -> Seq<u8> {
    let v = c as int;
    if v < 0x80 {
        seq![v as u8]
    } else if v < 0x800 {
        seq![(0xC0 + v / 64) as u8, (0x80 + v % 64) as u8]
    } else if v < 0x10000 {
        seq![(0xE0 + v / 4096) as u8, (0x80 + (v / 64) % 64) as u8, (0x80 + v % 64) as u8]
    } else {
        seq![
            (0xF0 + v / 262144) as u8,
            (0x80 + (v / 4096) % 64) as u8,
            (0x80 + (v / 64) % 64) as u8,
            (0x80 + v % 64) as u8,
        ]
    }
}

/// The unit at the front of a character's encoding is that character.
proof fn lemma_utf8_unit(c: char, rest: Seq<u8>)
    ensures
        utf8_unit(utf8_bytes(c) + rest) == (c as i32, utf8_bytes(c).len()),
{
    let e = utf8_bytes(c);
    let s = e + rest;
    let v = c as int;
    assert(s[0] == e[0]);
    if e.len() >= 2 {
        assert(s[1] == e[1]);
    }
    if e.len() >= 3 {
        assert(s[2] == e[2]);
    }
    if e.len() >= 4 {
        assert(s[3] == e[3]);
    }
    if v >= 0x80 && v < 0x800 {
        assert((v / 64) * 64 + v % 64 == v);
    } else if v >= 0x800 && v < 0x10000 {
        assert((v / 4096) * 4096 + ((v / 64) % 64) * 64 + v % 64 == v) by {
            assert(v / 64 == (v / 4096) * 64 + (v / 64) % 64);
        }
    } else if v >= 0x10000 {
        assert((v / 262144) * 262144 + ((v / 4096) % 64) * 4096 + ((v / 64) % 64) * 64 + v % 64
            == v) by {
            assert(v / 64 == (v / 4096) * 64 + (v / 64) % 64);
            assert(v / 4096 == (v / 262144) * 64 + (v / 4096) % 64);
        }
    }
}

/// vstd's UTF-8 encoding of a character is the arithmetic one.
proof fn lemma_encode_scalar(c: char)
    ensures
        vstd::utf8::encode_scalar(c as u32) == utf8_bytes(c),
{
    let v = c as u32;
    if v <= 0x7F {
        assert(vstd::utf8::leading_byte_width_1(v) == v as u8) by (bit_vector)
            requires
                v <= 0x7F,
        ;
    } else if v <= 0x7FF {
        assert(vstd::utf8::leading_byte_width_2(v) == (0xC0 + v / 64) as u8) by (bit_vector)
            requires
                0x80 <= v <= 0x7FF,
        ;
        assert(vstd::utf8::last_continuation_byte(v) == (0x80 + v % 64) as u8) by (bit_vector)
            requires
                0x80 <= v <= 0x7FF,
        ;
    } else if v <= 0xFFFF {
        assert(vstd::utf8::leading_byte_width_3(v) == (0xE0 + v / 4096) as u8) by (bit_vector)
            requires
                0x800 <= v <= 0xFFFF,
        ;
        assert(vstd::utf8::second_last_continuation_byte(v) == (0x80 + (v / 64) % 64) as u8)
            by (bit_vector)
            requires
                0x800 <= v <= 0xFFFF,
        ;
        assert(vstd::utf8::last_continuation_byte(v) == (0x80 + v % 64) as u8) by (bit_vector)
            requires
                0x800 <= v <= 0xFFFF,
        ;
    } else {
        assert(vstd::utf8::leading_byte_width_4(v) == (0xF0 + v / 262144) as u8) by (bit_vector)
            requires
                0x10000 <= v <= 0x10FFFF,
        ;
        assert(vstd::utf8::third_last_continuation_byte(v) == (0x80 + (v / 4096) % 64) as u8)
            by (bit_vector)
            requires
                0x10000 <= v <= 0x10FFFF,
        ;
        assert(vstd::utf8::second_last_continuation_byte(v) == (0x80 + (v / 64) % 64) as u8)
            by (bit_vector)
            requires
                0x10000 <= v <= 0x10FFFF,
        ;
        assert(vstd::utf8::last_continuation_byte(v) == (0x80 + v % 64) as u8) by (bit_vector)
            requires
                0x10000 <= v <= 0x10FFFF,
        ;
    }
    assert(vstd::utf8::encode_scalar(v) =~= utf8_bytes(c));
}

/// UTF-8 decoding gives back the characters of their encoding (the bytes of
/// a `str` are `encode_utf8` of its characters).
pub proof fn lemma_utf8_roundtrip(cs: Seq<char>)
    ensures
        decode_stateless(InputEncoding::UTF8, vstd::utf8::encode_utf8(cs)) == cs.map_values(
            |c: char| c as i32,
        ),
    decreases cs.len(),
{
    if cs.len() > 0 {
        lemma_encode_scalar(cs[0]);
        let e = utf8_bytes(cs[0]);
        let tail = vstd::utf8::encode_utf8(cs.drop_first());
        lemma_utf8_unit(cs[0], tail);
        assert((e + tail).skip(e.len() as int) =~= tail);
        lemma_utf8_roundtrip(cs.drop_first());
        assert(cs.map_values(|c: char| c as i32) =~= seq![cs[0] as i32] + cs.drop_first().map_values(
            |c: char| c as i32,
        ));
    }
}

/// Valid UTF-8 decodes to the characters it encodes, one code each.
pub proof fn lemma_valid_utf8_decodes(b: Seq<u8>)
    requires
        vstd::utf8::valid_utf8(b),
    ensures
        decode_stateless(InputEncoding::UTF8, b) == vstd::utf8::decode_utf8(b).map_values(
            |c: char| c as i32,
        ),
{
    vstd::utf8::decode_utf8_encode_utf8(b);
    lemma_utf8_roundtrip(vstd::utf8::decode_utf8(b));
}

/// A byte that cannot start a UTF-8 sequence (a continuation byte, 0xC0,
/// 0xC1, or 0xF5 and above) decodes to 128 and is followed by the decoding
/// of the rest; a single-byte character decodes to itself.
pub proof fn lemma_utf8_single_byte(x: u8, rest: Seq<u8>)
    ensures
        ((0x80 <= x <= 0xC1) || x >= 0xF5) ==> decode_stateless(InputEncoding::UTF8, seq![x] + rest)
            == seq![128i32] + decode_stateless(InputEncoding::UTF8, rest),
        x < 0x80 ==> decode_stateless(InputEncoding::UTF8, seq![x] + rest) == seq![x as i32]
            + decode_stateless(InputEncoding::UTF8, rest),
{
    let s = seq![x] + rest;
    assert(s[0] == x);
    if s.len() >= 2 {
        assert(s[1] == rest[0]);
    }
    if s.len() >= 3 {
        assert(s[2] == rest[1]);
    }
    if s.len() >= 4 {
        assert(s[3] == rest[2]);
    }
    assert(s.skip(1) =~= rest);
}

/// ISO 2022 under the default registers gives every byte other than the
/// shifts (0x0E, 0x0F, 0x8E, 0x8F) and ESC as itself, as Latin-1 does, and
/// leaves the registers as they were.
pub proof fn lemma_iso_default_latin1(s: Seq<u8>)
    requires
        forall|i: int|
            0 <= i < s.len() ==> #[trigger] s[i] != 0x0E && s[i] != 0x0F && s[i] != 0x8E && s[i]
                != 0x8F && s[i] != 27,
    ensures
        iso_decode(s, iso_default_model()) == (
            s.map_values(|b: u8| b as i32),
            iso_default_model(),
        ),
    decreases s.len(),
{
    let m = iso_default_model();
    if s.len() > 0 {
        let ch = s[0];
        assert(ch != 0x0E && ch != 0x0F && ch != 0x8E && ch != 0x8F && ch != 27);
        if 0x21 <= ch <= 0x7E {
            assert((0i32 | (ch as i32)) == ch as i32) by (bit_vector)
                requires
                    0x21 <= ch <= 0x7E,
            ;
            assert(m.with_ss(None) == m);
        } else if 0xA0 <= ch {
            assert((0x80i32 | ((ch - 0x80) as i32)) == ch as i32) by (bit_vector)
                requires
                    0xA0 <= ch,
            ;
        }
        lemma_iso_step(s, m);
        assert(iso_step(s, m) == (Some(ch as i32), 1nat, m));
        lemma_iso_default_latin1(s.skip(1));
        assert(s.map_values(|b: u8| b as i32) =~= seq![ch as i32] + s.skip(1).map_values(
            |b: u8| b as i32,
        ));
    }
}


/// With a single-byte set of code base 0 in GL and no single shift pending,
/// the graphic bytes 0x21..=0x7E decode to their own codes and leave the
/// registers as they are.
proof fn lemma_iso_gl_base0(t: Seq<u8>, m: IsoModel)
    requires
        m.wf(),
        m.single_shift is None,
        m.gn[m.gl as int] == 0,
        !m.gndbl[m.gl as int],
        forall|i: int| 0 <= i < t.len() ==> 0x21 <= #[trigger] t[i] <= 0x7E,
    ensures
        iso_decode(t, m) == (t.map_values(|b: u8| b as i32), m),
    decreases t.len(),
{
    if t.len() > 0 {
        let ch = t[0];
        assert(0x21 <= ch <= 0x7E);
        assert((0i32 | (ch as i32)) == ch as i32) by (bit_vector)
            requires
                0x21 <= ch <= 0x7E,
        ;
        assert(m.with_ss(None) == m);
        lemma_iso_step(t, m);
        assert(iso_step(t, m) == (Some(ch as i32), 1nat, m));
        assert forall|i: int| 0 <= i < t.skip(1).len() implies 0x21 <= #[trigger] t.skip(1)[i]
            <= 0x7E by {
            assert(t.skip(1)[i] == t[i + 1]);
        }
        lemma_iso_gl_base0(t.skip(1), m);
        assert(t.map_values(|b: u8| b as i32) =~= seq![ch as i32] + t.skip(1).map_values(
            |b: u8| b as i32,
        ));
    }
}

/// ESC ( B, ESC ) B, ESC * B and ESC + B designate the ASCII set (code
/// base 0, one byte per character) to G0, G1, G2 and G3, taking the three
/// bytes; after ESC ( B, with G0 invoked into GL, the graphic bytes
/// 0x21..=0x7E decode to their own ASCII codes.
pub proof fn law_designate_ascii(m: IsoModel, k: u8, t: Seq<u8>)
    requires
        m.wf(),
    ensures
        0x28 <= k <= 0x2B ==> iso_step(seq![27u8, k, 0x42u8] + t, m) == (
            None::<i32>,
            3nat,
            m.with_ss(None).with_g(k - 0x28, 0, false),
        ),
        (m.gl == 0 && forall|i: int| 0 <= i < t.len() ==> 0x21 <= #[trigger] t[i] <= 0x7E)
            ==> iso_decode(seq![27u8, 0x28u8, 0x42u8] + t, m).0 == t.map_values(|b: u8| b as i32),
{
    if 0x28 <= k <= 0x2B {
        let s = seq![27u8, k, 0x42u8] + t;
        assert(s[0] == 27 && s[1] == k);
        assert(s.skip(2)[0] == 0x42);
        assert(s.skip(2).len() > 0);
    }
    if m.gl == 0 && forall|i: int| 0 <= i < t.len() ==> 0x21 <= #[trigger] t[i] <= 0x7E {
        let s = seq![27u8, 0x28u8, 0x42u8] + t;
        assert(s[0] == 27 && s[1] == 0x28);
        assert(s.skip(2)[0] == 0x42);
        let m2 = m.with_ss(None).with_g(0, 0, false);
        lemma_iso_step(s, m);
        assert(iso_step(s, m) == (None::<i32>, 3nat, m2));
        assert(s.skip(3) =~= t);
        lemma_iso_gl_base0(t, m2);
    }
}


/// HZ in one-byte mode gives text without `~` as its own bytes.
pub proof fn law_hz_plain(s: Seq<u8>)
    requires
        forall|i: int| 0 <= i < s.len() ==> #[trigger] s[i] != 0x7E,
    ensures
        hz_decode(s, false) == (s.map_values(|b: u8| b as i32), false),
    decreases s.len(),
{
    if s.len() > 0 {
        assert(s[0] != 0x7E);
        assert forall|i: int| 0 <= i < s.skip(1).len() implies #[trigger] s.skip(1)[i] != 0x7E by {
            assert(s.skip(1)[i] == s[i + 1]);
        }
        law_hz_plain(s.skip(1));
        assert(s.map_values(|b: u8| b as i32) =~= seq![s[0] as i32] + s.skip(1).map_values(
            |b: u8| b as i32,
        ));
    }
}

/// The HZ escapes: `~~` is a literal tilde in either mode, `~{` switches
/// to two-byte mode and `~}` back to one-byte mode, neither giving a code.
pub proof fn law_hz_escapes(rest: Seq<u8>, two: bool)
    ensures
        hz_decode(seq![0x7Eu8, 0x7Eu8] + rest, two) == (
            seq![0x7Ei32] + hz_decode(rest, two).0,
            hz_decode(rest, two).1,
        ),
        hz_decode(seq![0x7Eu8, 0x7Bu8] + rest, two) == hz_decode(rest, true),
        hz_decode(seq![0x7Eu8, 0x7Du8] + rest, two) == hz_decode(rest, false),
{
    assert((seq![0x7Eu8, 0x7Eu8] + rest).skip(2) =~= rest);
    assert((seq![0x7Eu8, 0x7Bu8] + rest).skip(2) =~= rest);
    assert((seq![0x7Eu8, 0x7Du8] + rest).skip(2) =~= rest);
}

/// In two-byte mode, bytes are read in pairs: each pair `hi, lo` (with `hi`
/// not `~`) gives the code `hi * 256 + lo`, and the mode stays.
pub proof fn law_hz_pairs(p: Seq<u8>, rest: Seq<u8>)
    requires
        p.len() % 2 == 0,
        forall|j: int| 0 <= j < p.len() / 2 ==> #[trigger] p[2 * j] != 0x7E,
    ensures
        hz_decode(p + rest, true) == (
            Seq::new((p.len() / 2) as nat, |j: int| (p[2 * j] * 256 + p[2 * j + 1]) as i32)
                + hz_decode(rest, true).0,
            hz_decode(rest, true).1,
        ),
    decreases p.len(),
{
    let codes = Seq::new((p.len() / 2) as nat, |j: int| (p[2 * j] * 256 + p[2 * j + 1]) as i32);
    if p.len() == 0 {
        assert(p + rest =~= rest);
        assert(codes =~= Seq::<i32>::empty());
        assert(codes + hz_decode(rest, true).0 =~= hz_decode(rest, true).0);
    } else {
        let q = p.skip(2);
        assert(p[0] != 0x7E) by {
            assert(p[2 * 0int] != 0x7E);
        }
        assert forall|j: int| 0 <= j < q.len() / 2 implies #[trigger] q[2 * j] != 0x7E by {
            assert(q[2 * j] == p[2 * (j + 1)]);
        }
        law_hz_pairs(q, rest);
        let s = p + rest;
        assert(s[0] == p[0] && s[1] == p[1]);
        assert(s.skip(2) =~= q + rest);
        let qcodes = Seq::new((q.len() / 2) as nat, |j: int| (q[2 * j] * 256 + q[2 * j + 1]) as i32);
        assert forall|j: int| 0 <= j < qcodes.len() implies qcodes[j] == codes[j + 1] by {
            assert(q[2 * j] == p[2 * j + 2]);
            assert(q[2 * j + 1] == p[2 * j + 3]);
        }
        assert(codes =~= seq![(p[0] * 256 + p[1]) as i32] + qcodes);
        assert(seq![(p[0] * 256 + p[1]) as i32] + (qcodes + hz_decode(rest, true).0) =~= codes
            + hz_decode(rest, true).0);
    }
}

/// DBCS and Shift-JIS give a byte below 0x80 as itself and join a lead
/// byte (any byte from 0x80 for DBCS; 0x80..=0x9F or 0xE0..=0xEF for
/// Shift-JIS) with the byte after it into `lead * 256 + trail`.
pub proof fn law_double_byte(enc: InputEncoding, a: u8, b: u8, rest: Seq<u8>)
    requires
        enc == InputEncoding::Dbcs || enc == InputEncoding::ShiftJIS,
    ensures
        a < 0x80 ==> decode_stateless(enc, seq![a] + rest) == seq![a as i32] + decode_stateless(
            enc,
            rest,
        ),
        ((enc == InputEncoding::Dbcs && a >= 0x80) || (enc == InputEncoding::ShiftJIS && sjis_lead(
            a,
        ))) ==> decode_stateless(enc, seq![a, b] + rest) == seq![(a * 256 + b) as i32]
            + decode_stateless(enc, rest),
{
    let s1 = seq![a] + rest;
    assert(s1[0] == a);
    assert(s1.skip(1) =~= rest);
    let s2 = seq![a, b] + rest;
    assert(s2[0] == a && s2[1] == b);
    assert(s2.skip(2) =~= rest);
}


/// One graphic byte of the left half decoded from the registers `m`.
proof fn lemma_iso_one(x: u8, m: IsoModel)
    requires
        m.wf(),
        0x21 <= x <= 0x7E,
        !m.gndbl[match m.single_shift {
            Some(r) => r as int,
            None => m.gl as int,
        }],
    ensures
        iso_decode(seq![x], m) == (
            seq![
                m.gn[match m.single_shift {
                    Some(r) => r as int,
                    None => m.gl as int,
                }] | (x as i32),
            ],
            m.with_ss(None),
        ),
{
    let s = seq![x];
    lemma_iso_step(s, m);
    assert(s[0] == x);
    assert(s.skip(1) =~= Seq::<u8>::empty());
    let (o, k, m2) = iso_step(s, m);
    assert(k == 1);
    assert(iso_decode(s.skip(1), m2) == (Seq::<i32>::empty(), m2));
    assert(seq![o.unwrap()] + Seq::<i32>::empty() =~= seq![o.unwrap()]);
}

/// SO (0x0E) invokes G1 into the left half and SI (0x0F) G0; SS2 (0x8E)
/// and SS3 (0x8F) take the next left-half character from G2 or G3, after
/// which the invoked set applies again.
pub proof fn law_iso_shifts(m: IsoModel, x: u8, y: u8)
    requires
        m.wf(),
        m.single_shift is None,
        0x21 <= x <= 0x7E,
        0x21 <= y <= 0x7E,
        !m.gndbl[0],
        !m.gndbl[1],
        !m.gndbl[2],
        !m.gndbl[3],
    ensures
        iso_decode(seq![0x0Eu8, x], m).0 == seq![m.gn[1] | (x as i32)],
        iso_decode(seq![0x0Fu8, x], m).0 == seq![m.gn[0] | (x as i32)],
        iso_decode(seq![0x8Eu8, x, y], m).0 == seq![
            m.gn[2] | (x as i32),
            m.gn[m.gl as int] | (y as i32),
        ],
        iso_decode(seq![0x8Fu8, x, y], m).0 == seq![
            m.gn[3] | (x as i32),
            m.gn[m.gl as int] | (y as i32),
        ],
{
    let so = seq![0x0Eu8, x];
    lemma_iso_step(so, m);
    assert(so.skip(1) =~= seq![x]);
    lemma_iso_one(x, m.with_ss(None).with_gl(1));
    let si = seq![0x0Fu8, x];
    lemma_iso_step(si, m);
    assert(si.skip(1) =~= seq![x]);
    lemma_iso_one(x, m.with_ss(None).with_gl(0));
    let ss2 = seq![0x8Eu8, x, y];
    lemma_iso_step(ss2, m);
    assert(ss2.skip(1) =~= seq![x, y]);
    let m2 = m.with_ss(Some(2));
    let xy = seq![x, y];
    lemma_iso_step(xy, m2);
    assert(xy.skip(1) =~= seq![y]);
    assert(m2.with_ss(None) == m);
    lemma_iso_one(y, m);
    assert(iso_decode(xy, m2).0 =~= seq![m.gn[2] | (x as i32), m.gn[m.gl as int] | (y as i32)]);
    let ss3 = seq![0x8Fu8, x, y];
    lemma_iso_step(ss3, m);
    assert(ss3.skip(1) =~= seq![x, y]);
    let m3 = m.with_ss(Some(3));
    lemma_iso_step(xy, m3);
    assert(m3.with_ss(None) == m);
    assert(iso_decode(xy, m3).0 =~= seq![m.gn[3] | (x as i32), m.gn[m.gl as int] | (y as i32)]);
}


/// Sequences that look like UTF-8 but encode no character (an encoded
/// surrogate, an overlong three- or four-byte form, or a value above
/// U+10FFFF) give 128 for their first byte, and decoding goes on with the
/// byte after it.
pub proof fn law_utf8_rejects(b0: u8, b1: u8, b2: u8, b3: u8, rest: Seq<u8>)
    requires
        0x80 <= b2 <= 0xBF,
        0x80 <= b3 <= 0xBF,
        (b0 == 0xED && 0xA0 <= b1 <= 0xBF) || (b0 == 0xE0 && 0x80 <= b1 <= 0x9F) || (b0 == 0xF0
            && 0x80 <= b1 <= 0x8F) || (b0 == 0xF4 && 0x90 <= b1 <= 0xBF),
    ensures
        decode_stateless(InputEncoding::UTF8, seq![b0, b1, b2, b3] + rest) == seq![128i32]
            + decode_stateless(InputEncoding::UTF8, seq![b1, b2, b3] + rest),
{
    let s = seq![b0, b1, b2, b3] + rest;
    assert(s[0] == b0 && s[1] == b1 && s[2] == b2 && s[3] == b3);
    assert(s.skip(1) =~= seq![b1, b2, b3] + rest);
}

} // verus!
