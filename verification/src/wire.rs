//! The messages between the editor and its map-generation worker: a job
//! going out, progress and the finished planes coming back. Every message is
//! a run of little-endian integers, flags and length-prefixed byte strings.
use vstd::prelude::*;
use vstd::utf8::{decode_utf8, encode_utf8, valid_utf8};
use vstd::string::StringSliceAdditionalSpecFns;
use crate::le::{le32, get32, push32, read32, lemma_get32_at, lemma_i32_round};
use crate::text::{decimal, push_decimal, push_str, string_of};
use crate::blueprint_editor::{Blueprint, BlueprintView};
use crate::d6m::has_at;
use crate::generator_panel::GeneratedPlane;
use crate::le::lemma_get32_eq;

verus! {

pub const PROGRESS: u8 = 0;
pub const DONE: u8 = 1;
pub const CANCELLED: u8 = 2;
pub const READY: u8 = 3;

/// The characters that lossy UTF-8 decoding makes of these bytes.
pub uninterp spec fn lossy_utf8(bytes: Seq<u8>) -> Seq<char>;

/// What a string read from these bytes holds: their characters when they are
/// UTF-8, else the lossy decoding.
#[verifier::opaque]
pub open spec fn text_of(bytes: Seq<u8>) -> Seq<char> {
    if valid_utf8(bytes) {
        decode_utf8(bytes)
    } else {
        lossy_utf8(bytes)
    }
}

/// Decodes bytes as UTF-8 with `String::from_utf8_lossy`, taking the result
/// as an owned string. Claimed: the result depends on the bytes alone
/// (`lossy_utf8`), and bytes that are valid UTF-8 give exactly their characters,
/// as the documentation of `from_utf8_lossy` says.
#[verifier::external_body]
pub(crate) fn string_from_utf8_lossy(bytes: &[u8]) -> (s: String)
    ensures
        s@ == lossy_utf8(bytes@),
        valid_utf8(bytes@) ==> s@ == decode_utf8(bytes@),
{
    String::from_utf8_lossy(bytes).into_owned()
}

/// A flag as one byte.
pub open spec fn wr_bool(v: bool) -> Seq<u8> {
    seq![if v { 1u8 } else { 0u8 }]
}

/// A byte string after its length as four bytes.
pub open spec fn wr_bytes(v: Seq<u8>) -> Seq<u8> {
    le32(v.len() as u32) + v
}

/// A string as its UTF-8 bytes after their length.
pub open spec fn wr_str(s: Seq<char>) -> Seq<u8> {
    wr_bytes(encode_utf8(s))
}

/// A writer that gathers a message.
pub struct Writer {
    buf: Vec<u8>,
}

impl View for Writer {
    type V = Seq<u8>;

    closed spec fn view(&self) -> Seq<u8> {
        self.buf@
    }
}

impl Default for Writer {
    fn default() -> (w: Writer)
        ensures
            w@ == Seq::<u8>::empty(),
    {
        Writer { buf: Vec::new() }
    }
}

impl Writer {
    /// Writes one byte.
    pub fn u8(&mut self, v: u8)
        ensures
            final(self)@ == old(self)@.push(v),
    {
        self.buf.push(v);
    }

    /// Writes a flag as one byte, one for true.
    pub fn bool(&mut self, v: bool)
        ensures
            final(self)@ == old(self)@ + wr_bool(v),
    {
        self.buf.push(if v { 1u8 } else { 0u8 });
        assert(self@ =~= old(self)@ + wr_bool(v));
    }

    /// Writes a signed number as four bytes, low byte first.
    pub fn i32(&mut self, v: i32)
        ensures
            final(self)@ == old(self)@ + le32(v as u32),
    {
        push32(&mut self.buf, v as u32);
    }

    /// Writes a number as four bytes, low byte first.
    pub fn u32(&mut self, v: u32)
        ensures
            final(self)@ == old(self)@ + le32(v),
    {
        push32(&mut self.buf, v);
    }

    /// Writes a byte string: its length as four bytes, then the bytes.
    pub fn bytes(&mut self, v: &[u8])
        ensures
            final(self)@ == old(self)@ + wr_bytes(v@),
    {
        self.u32(v.len() as u32);
        let ghost mid = self@;
        let mut i: usize = 0;
        while i < v.len()
            invariant
                i <= v@.len(),
                self@ == mid + v@.take(i as int),
            decreases v@.len() - i,
        {
            self.buf.push(v[i]);
            assert(v@.take(i as int).push(v@[i as int]) =~= v@.take(i + 1));
            i += 1;
        }
        assert(v@.take(v@.len() as int) =~= v@);
        assert(self@ =~= old(self)@ + wr_bytes(v@));
    }

    /// Writes a string as its UTF-8 bytes.
    pub fn str(&mut self, v: &str)
        ensures
            final(self)@ == old(self)@ + wr_str(v@),
    {
        self.bytes(v.as_bytes());
    }

    /// The message written.
    pub fn finish(self) -> (out: Vec<u8>)
        ensures
            out@ == self@,
    {
        self.buf
    }
}

/// The error of a read past the end of a message.
#[verifier::opaque]
pub open spec fn truncated_msg(pos: int, len: int) -> Seq<char> {
    "message truncated at byte "@ + decimal(pos as nat) + " of "@ + decimal(len as nat)
}

/// A read of `n` bytes at `pos`: where the next read starts.
pub open spec fn rd_take(b: Seq<u8>, pos: int, n: int) -> Result<int, Seq<char>> {
    if pos + n > b.len() {
        Err(truncated_msg(pos, b.len() as int))
    } else {
        Ok(pos + n)
    }
}

/// One byte read at `pos`, and where the next read starts.
pub open spec fn rd_u8(b: Seq<u8>, pos: int) -> Result<(u8, int), Seq<char>> {
    match rd_take(b, pos, 1) {
        Ok(p) => Ok((b[pos], p)),
        Err(e) => Err(e),
    }
}

/// A flag read at `pos`: any byte but zero is true.
pub open spec fn rd_bool(b: Seq<u8>, pos: int) -> Result<(bool, int), Seq<char>> {
    match rd_u8(b, pos) {
        Ok((v, p)) => Ok((v != 0, p)),
        Err(e) => Err(e),
    }
}

/// A four-byte number read at `pos`.
pub open spec fn rd_u32(b: Seq<u8>, pos: int) -> Result<(u32, int), Seq<char>> {
    match rd_take(b, pos, 4) {
        Ok(p) => Ok((get32(b, pos), p)),
        Err(e) => Err(e),
    }
}

/// A four-byte signed number read at `pos`.
pub open spec fn rd_i32(b: Seq<u8>, pos: int) -> Result<(i32, int), Seq<char>> {
    match rd_u32(b, pos) {
        Ok((v, p)) => Ok((v as i32, p)),
        Err(e) => Err(e),
    }
}

/// A length-prefixed byte string read at `pos`.
pub open spec fn rd_bytes(b: Seq<u8>, pos: int) -> Result<(Seq<u8>, int), Seq<char>> {
    match rd_u32(b, pos) {
        Ok((n, p)) => match rd_take(b, p, n as int) {
            Ok(q) => Ok((b.subrange(p, q), q)),
            Err(e) => Err(e),
        },
        Err(e) => Err(e),
    }
}

/// A length-prefixed string read at `pos`.
pub open spec fn rd_str(b: Seq<u8>, pos: int) -> Result<(Seq<char>, int), Seq<char>> {
    match rd_bytes(b, pos) {
        Ok((v, p)) => Ok((text_of(v), p)),
        Err(e) => Err(e),
    }
}

/// A reader that walks through a message.
pub struct Reader<'a> {
    buf: &'a [u8],
    pos: usize,
}

impl<'a> Reader<'a> {
    /// The message.
    pub closed spec fn data(&self) -> Seq<u8> {
        self.buf@
    }

    /// Where the next read starts.
    pub closed spec fn at(&self) -> int {
        self.pos as int
    }

    /// The position lies within the message.
    pub closed spec fn wf(&self) -> bool {
        self.pos <= self.buf@.len()
    }

    /// A reader at the start of a message.
    pub fn new(buf: &'a [u8]) -> (r: Reader<'a>)
        ensures
            r.wf(),
            r.data() == buf@,
            r.at() == 0,
    {
        Reader { buf, pos: 0 }
    }

    fn take(&mut self, n: usize) -> (r: Result<&'a [u8], String>)
        requires
            old(self).wf(),
        ensures
            final(self).wf(),
            final(self).data() == old(self).data(),
            match rd_take(old(self).data(), old(self).at(), n as int) {
                Ok(p) => r is Ok && r->Ok_0@ == old(self).data().subrange(old(self).at(), p)
                    && final(self).at() == p,
                Err(e) => r is Err && r->Err_0@ == e && final(self).at() == old(self).at(),
            },
    {
        let len = self.buf.len();
        if n > len - self.pos {
            let mut s = string_of("message truncated at byte ");
            push_decimal(&mut s, self.pos as u64);
            push_str(&mut s, " of ");
            push_decimal(&mut s, len as u64);
            proof {
                reveal(truncated_msg);
            }
            return Err(s);
        }
        let end = self.pos + n;
        let out = vstd::slice::slice_subrange(self.buf, self.pos, end);
        self.pos = end;
        Ok(out)
    }

    /// Reads one byte.
    pub fn u8(&mut self) -> (r: Result<u8, String>)
        requires
            old(self).wf(),
        ensures
            final(self).wf(),
            final(self).data() == old(self).data(),
            match rd_u8(old(self).data(), old(self).at()) {
                Ok((v, p)) => r == Ok::<u8, String>(v) && final(self).at() == p,
                Err(e) => r is Err && r->Err_0@ == e && final(self).at() == old(self).at(),
            },
    {
        let b = self.take(1)?;
        Ok(b[0])
    }

    /// Reads a flag: any byte but zero is true.
    pub fn bool(&mut self) -> (r: Result<bool, String>)
        requires
            old(self).wf(),
        ensures
            final(self).wf(),
            final(self).data() == old(self).data(),
            match rd_bool(old(self).data(), old(self).at()) {
                Ok((v, p)) => r == Ok::<bool, String>(v) && final(self).at() == p,
                Err(e) => r is Err && r->Err_0@ == e && final(self).at() == old(self).at(),
            },
    {
        let v = self.u8()?;
        Ok(v != 0)
    }

    /// Reads a four-byte signed number.
    pub fn i32(&mut self) -> (r: Result<i32, String>)
        requires
            old(self).wf(),
        ensures
            final(self).wf(),
            final(self).data() == old(self).data(),
            match rd_i32(old(self).data(), old(self).at()) {
                Ok((v, p)) => r == Ok::<i32, String>(v) && final(self).at() == p,
                Err(e) => r is Err && r->Err_0@ == e && final(self).at() == old(self).at(),
            },
    {
        let v = self.u32()?;
        Ok(v as i32)
    }

    /// Reads a four-byte number.
    pub fn u32(&mut self) -> (r: Result<u32, String>)
        requires
            old(self).wf(),
        ensures
            final(self).wf(),
            final(self).data() == old(self).data(),
            match rd_u32(old(self).data(), old(self).at()) {
                Ok((v, p)) => r == Ok::<u32, String>(v) && final(self).at() == p,
                Err(e) => r is Err && r->Err_0@ == e && final(self).at() == old(self).at(),
            },
    {
        let ghost start = self.at();
        let b = self.take(4)?;
        let v = read32(b, 0);
        proof {
            let d = self.data();
            assert(b@[0] == d[start]);
            assert(b@[1] == d[start + 1]);
            assert(b@[2] == d[start + 2]);
            assert(b@[3] == d[start + 3]);
        }
        Ok(v)
    }

    /// Reads a length-prefixed byte string.
    pub fn bytes(&mut self) -> (r: Result<&'a [u8], String>)
        requires
            old(self).wf(),
        ensures
            final(self).wf(),
            final(self).data() == old(self).data(),
            match rd_bytes(old(self).data(), old(self).at()) {
                Ok((v, p)) => r is Ok && r->Ok_0@ == v && final(self).at() == p,
                Err(e) => r is Err && r->Err_0@ == e,
            },
    {
        let n = self.u32()?;
        self.take(n as usize)
    }

    /// Reads a length-prefixed string; bytes that are not UTF-8 are decoded lossily.
    pub fn str(&mut self) -> (r: Result<String, String>)
        requires
            old(self).wf(),
        ensures
            final(self).wf(),
            final(self).data() == old(self).data(),
            match rd_str(old(self).data(), old(self).at()) {
                Ok((v, p)) => r is Ok && r->Ok_0@ == v && final(self).at() == p,
                Err(e) => r is Err && r->Err_0@ == e,
            },
    {
        let b = self.bytes()?;
        let s = string_from_utf8_lossy(b);
        assert(s@ == text_of(b@)) by {
            reveal(text_of);
        }
        Ok(s)
    }

    /// Whether the whole message has been read.
    pub fn done(&self) -> (d: bool)
        ensures
            d == (self.at() >= self.data().len()),
    {
        self.pos >= self.buf.len()
    }
}

/// A byte written is read back.
pub proof fn lemma_rd_u8(pre: Seq<u8>, v: u8, post: Seq<u8>)
    ensures
        rd_u8(pre + seq![v] + post, pre.len() as int) == Ok::<(u8, int), Seq<char>>((v, pre.len() as int + 1)),
{
    assert((pre + seq![v] + post)[pre.len() as int] == v);
}

/// A flag written is read back.
pub proof fn lemma_rd_bool(pre: Seq<u8>, v: bool, post: Seq<u8>)
    ensures
        rd_bool(pre + wr_bool(v) + post, pre.len() as int) == Ok::<(bool, int), Seq<char>>((v, pre.len() as int + 1)),
{
    assert((pre + wr_bool(v) + post)[pre.len() as int] == wr_bool(v)[0]);
}

/// A four-byte number written is read back.
pub proof fn lemma_rd_u32(pre: Seq<u8>, v: u32, post: Seq<u8>)
    ensures
        rd_u32(pre + le32(v) + post, pre.len() as int) == Ok::<(u32, int), Seq<char>>((v, pre.len() as int + 4)),
{
    lemma_get32_at(pre, v, post);
}

/// A four-byte signed number written is read back.
pub proof fn lemma_rd_i32(pre: Seq<u8>, v: i32, post: Seq<u8>)
    ensures
        rd_i32(pre + le32(v as u32) + post, pre.len() as int) == Ok::<(i32, int), Seq<char>>((v, pre.len() as int + 4)),
{
    lemma_get32_at(pre, v as u32, post);
    lemma_i32_round(v);
}

/// A byte string written is read back, when its length fits the four-byte prefix.
pub proof fn lemma_rd_bytes(pre: Seq<u8>, v: Seq<u8>, post: Seq<u8>)
    requires
        v.len() <= u32::MAX,
    ensures
        rd_bytes(pre + wr_bytes(v) + post, pre.len() as int) == Ok::<(Seq<u8>, int), Seq<char>>(
            (v, pre.len() + 4 + v.len() as int),
        ),
{
    let b = pre + wr_bytes(v) + post;
    assert(b =~= pre + le32(v.len() as u32) + (v + post));
    lemma_rd_u32(pre, v.len() as u32, v + post);
    let p = pre.len() as int + 4;
    assert(b.subrange(p, p + v.len() as int) =~= v);
}

proof fn lemma_rd_str_of_bytes(b: Seq<u8>, pos: int, e: Seq<u8>, q: int)
    requires
        rd_bytes(b, pos) == Ok::<(Seq<u8>, int), Seq<char>>((e, q)),
    ensures
        rd_str(b, pos) == Ok::<(Seq<char>, int), Seq<char>>((text_of(e), q)),
{
}

#[verifier::spinoff_prover]
#[verifier::rlimit(40)]
proof fn lemma_rd_text(pre: Seq<u8>, e: Seq<u8>, post: Seq<u8>, s: Seq<char>)
    requires
        e.len() <= u32::MAX,
        text_of(e) == s,
    ensures
        rd_str(pre + wr_bytes(e) + post, pre.len() as int) == Ok::<(Seq<char>, int), Seq<char>>(
            (s, pre.len() + wr_bytes(e).len() as int),
        ),
{
    let b = pre + wr_bytes(e) + post;
    let q = pre.len() + 4 + e.len() as int;
    assert(wr_bytes(e).len() == 4 + e.len());
    lemma_rd_bytes(pre, e, post);
    lemma_rd_str_of_bytes(b, pre.len() as int, e, q);
}

proof fn lemma_text_of_encoded(s: Seq<char>)
    ensures
        text_of(encode_utf8(s)) == s,
{
    reveal(text_of);
    vstd::utf8::encode_utf8_valid_utf8(s);
    vstd::utf8::encode_utf8_decode_utf8(s);
}

/// A string written is read back, when its bytes fit the four-byte prefix.
pub proof fn lemma_rd_str(pre: Seq<u8>, s: Seq<char>, post: Seq<u8>)
    requires
        encode_utf8(s).len() <= u32::MAX,
    ensures
        rd_str(pre + wr_str(s) + post, pre.len() as int) == Ok::<(Seq<char>, int), Seq<char>>(
            (s, pre.len() + wr_str(s).len() as int),
        ),
{
    lemma_text_of_encoded(s);
    lemma_rd_text(pre, encode_utf8(s), post, s);
}

/// How the generator is to be run.
#[derive(Clone, Copy, Debug, PartialEq, Eq, Structural)]
pub enum Mode {
    Terrain,
    NewGame { players: i32, per_player_bucket: i32 },
    PerPlayer { players: i32, per: i32 },
}

/// The generator's settings, as they travel to the worker. The ruggedness
/// override is a 32-bit float, carried as its bits.
#[derive(Clone, Debug, PartialEq)]
pub struct Options {
    pub width: i32,
    pub height: i32,
    pub provinces: i32,
    pub sea_part: i32,
    pub mount_part: i32,
    pub forest_part: i32,
    pub farm_part: i32,
    pub swamp_part: i32,
    pub waste_part: i32,
    pub highland_part: i32,
    pub kelp_part: i32,
    pub gorge_part: i32,
    pub river_part: i32,
    pub hills: i32,
    pub rugedness: i32,
    pub sea_size: i32,
    pub extra_islands: i32,
    pub bridges: i32,
    pub no_water_prov: bool,
    pub hwrap: bool,
    pub vwrap: bool,
    pub blueprint: Option<Blueprint>,
    pub blue_acc: i32,
    pub cave_world: bool,
    pub caves_plane: bool,
    pub cave_part: i32,
    pub cave_blueprint: Option<Blueprint>,
    pub rugedness_bits: Option<u32>,
}

/// The settings as plain values: the numbers and the flags in the order they
/// are sent, then the two blueprints and the ruggedness override.
pub struct OptionsView {
    pub ints: Seq<i32>,
    pub flags: Seq<bool>,
    pub blueprint: Option<BlueprintView>,
    pub cave_blueprint: Option<BlueprintView>,
    pub rugedness_bits: Option<u32>,
}

/// A blueprint that may be missing, as plain values.
pub open spec fn opt_blueprint(o: Option<Blueprint>) -> Option<BlueprintView> {
    match o {
        Some(b) => Some(b@),
        None => None,
    }
}

impl View for Options {
    type V = OptionsView;

    open spec fn view(&self) -> OptionsView {
        OptionsView {
            ints: seq![
                self.width,
                self.height,
                self.provinces,
                self.sea_part,
                self.mount_part,
                self.forest_part,
                self.farm_part,
                self.swamp_part,
                self.waste_part,
                self.highland_part,
                self.kelp_part,
                self.gorge_part,
                self.river_part,
                self.hills,
                self.rugedness,
                self.sea_size,
                self.extra_islands,
                self.bridges,
                self.blue_acc,
                self.cave_part,
            ],
            flags: seq![self.no_water_prov, self.hwrap, self.vwrap, self.cave_world, self.caves_plane],
            blueprint: opt_blueprint(self.blueprint),
            cave_blueprint: opt_blueprint(self.cave_blueprint),
            rugedness_bits: self.rugedness_bits,
        }
    }
}

/// One run of the generator.
#[derive(Clone, Debug, PartialEq)]
pub struct Job {
    pub opts: Options,
    pub seed: u32,
    pub name: String,
    pub mode: Mode,
}

/// A job as plain values.
#[verifier::ext_equal]
pub struct JobView {
    pub opts: OptionsView,
    pub seed: u32,
    pub name: Seq<char>,
    pub mode: Mode,
}

impl View for Job {
    type V = JobView;

    open spec fn view(&self) -> JobView {
        JobView { opts: self.opts@, seed: self.seed, name: self.name@, mode: self.mode }
    }
}

/// Numbers written one after another.
pub open spec fn enc_i32s(s: Seq<i32>) -> Seq<u8>
    decreases s.len(),
{
    if s.len() == 0 {
        Seq::empty()
    } else {
        enc_i32s(s.drop_last()) + le32(s.last() as u32)
    }
}

/// Flags written one after another.
pub open spec fn enc_bools(s: Seq<bool>) -> Seq<u8>
    decreases s.len(),
{
    if s.len() == 0 {
        Seq::empty()
    } else {
        enc_bools(s.drop_last()) + wr_bool(s.last())
    }
}

/// A blueprint that may be missing: a flag, then its size and its pixels.
pub open spec fn enc_blueprint(o: Option<BlueprintView>) -> Seq<u8> {
    match o {
        None => wr_bool(false),
        Some(b) => wr_bool(true) + le32(b.w as u32) + le32(b.h as u32) + wr_bytes(b.bgra),
    }
}

/// A number that may be missing: a flag, then the number.
pub open spec fn enc_opt_u32(o: Option<u32>) -> Seq<u8> {
    match o {
        None => wr_bool(false),
        Some(v) => wr_bool(true) + le32(v),
    }
}

/// The settings as sent.
pub open spec fn enc_options(o: OptionsView) -> Seq<u8> {
    enc_i32s(o.ints) + enc_bools(o.flags) + enc_blueprint(o.blueprint) + enc_blueprint(
        o.cave_blueprint,
    ) + enc_opt_u32(o.rugedness_bits)
}

/// The mode as sent: its number, then its two counts.
pub open spec fn enc_mode(m: Mode) -> Seq<u8> {
    match m {
        Mode::Terrain => seq![0u8],
        Mode::NewGame { players, per_player_bucket } => seq![1u8] + le32(players as u32) + le32(
            per_player_bucket as u32,
        ),
        Mode::PerPlayer { players, per } => seq![2u8] + le32(players as u32) + le32(per as u32),
    }
}

/// A job message.
pub open spec fn enc_job(j: JobView) -> Seq<u8> {
    enc_options(j.opts) + le32(j.seed) + wr_str(j.name) + enc_mode(j.mode)
}

/// `k` numbers read from `pos` on.
pub open spec fn rd_i32s(b: Seq<u8>, pos: int, k: nat) -> Result<(Seq<i32>, int), Seq<char>>
    decreases k,
{
    if k == 0 {
        Ok((Seq::empty(), pos))
    } else {
        match rd_i32s(b, pos, (k - 1) as nat) {
            Ok((s, p)) => match rd_i32(b, p) {
                Ok((v, q)) => Ok((s.push(v), q)),
                Err(e) => Err(e),
            },
            Err(e) => Err(e),
        }
    }
}

/// `k` flags read from `pos` on.
pub open spec fn rd_bools(b: Seq<u8>, pos: int, k: nat) -> Result<(Seq<bool>, int), Seq<char>>
    decreases k,
{
    if k == 0 {
        Ok((Seq::empty(), pos))
    } else {
        match rd_bools(b, pos, (k - 1) as nat) {
            Ok((s, p)) => match rd_bool(b, p) {
                Ok((v, q)) => Ok((s.push(v), q)),
                Err(e) => Err(e),
            },
            Err(e) => Err(e),
        }
    }
}

/// A blueprint that may be missing, read at `pos`.
pub open spec fn rd_blueprint(b: Seq<u8>, pos: int) -> Result<(Option<BlueprintView>, int), Seq<char>> {
    match rd_bool(b, pos) {
        Err(e) => Err(e),
        Ok((false, p)) => Ok((None, p)),
        Ok((true, p)) => match rd_i32(b, p) {
            Err(e) => Err(e),
            Ok((w, p1)) => match rd_i32(b, p1) {
                Err(e) => Err(e),
                Ok((h, p2)) => match rd_bytes(b, p2) {
                    Err(e) => Err(e),
                    Ok((bgra, p3)) => Ok((Some(BlueprintView { w, h, bgra }), p3)),
                },
            },
        },
    }
}

/// A number that may be missing, read at `pos`.
pub open spec fn rd_opt_u32(b: Seq<u8>, pos: int) -> Result<(Option<u32>, int), Seq<char>> {
    match rd_bool(b, pos) {
        Err(e) => Err(e),
        Ok((false, p)) => Ok((None, p)),
        Ok((true, p)) => match rd_u32(b, p) {
            Err(e) => Err(e),
            Ok((v, q)) => Ok((Some(v), q)),
        },
    }
}

/// The settings read at `pos`.
pub open spec fn rd_options(b: Seq<u8>, pos: int) -> Result<(OptionsView, int), Seq<char>> {
    match rd_i32s(b, pos, 20) {
        Err(e) => Err(e),
        Ok((ints, p1)) => match rd_bools(b, p1, 5) {
            Err(e) => Err(e),
            Ok((flags, p2)) => match rd_blueprint(b, p2) {
                Err(e) => Err(e),
                Ok((bp, p3)) => match rd_blueprint(b, p3) {
                    Err(e) => Err(e),
                    Ok((cave, p4)) => match rd_opt_u32(b, p4) {
                        Err(e) => Err(e),
                        Ok((rug, p5)) => Ok(
                            (
                                OptionsView {
                                    ints,
                                    flags,
                                    blueprint: bp,
                                    cave_blueprint: cave,
                                    rugedness_bits: rug,
                                },
                                p5,
                            ),
                        ),
                    },
                },
            },
        },
    }
}

/// The mode read at `pos`.
pub open spec fn rd_mode(b: Seq<u8>, pos: int) -> Result<(Mode, int), Seq<char>> {
    match rd_u8(b, pos) {
        Err(e) => Err(e),
        Ok((k, p)) => if k == 0 {
            Ok((Mode::Terrain, p))
        } else if k == 1 || k == 2 {
            match rd_i32(b, p) {
                Err(e) => Err(e),
                Ok((x, p1)) => match rd_i32(b, p1) {
                    Err(e) => Err(e),
                    Ok((y, p2)) => Ok(
                        (
                            if k == 1 {
                                Mode::NewGame { players: x, per_player_bucket: y }
                            } else {
                                Mode::PerPlayer { players: x, per: y }
                            },
                            p2,
                        ),
                    ),
                },
            }
        } else {
            Err("unknown generation mode "@ + decimal(k as nat))
        },
    }
}

/// What a job message holds; bytes after it are not looked at.
pub open spec fn spec_decode_job(b: Seq<u8>) -> Result<JobView, Seq<char>> {
    match rd_options(b, 0) {
        Err(e) => Err(e),
        Ok((opts, p1)) => match rd_u32(b, p1) {
            Err(e) => Err(e),
            Ok((seed, p2)) => match rd_str(b, p2) {
                Err(e) => Err(e),
                Ok((name, p3)) => match rd_mode(b, p3) {
                    Err(e) => Err(e),
                    Ok((mode, _)) => Ok(JobView { opts, seed, name, mode }),
                },
            },
        },
    }
}

proof fn lemma_has_split(b: Seq<u8>, o: int, x: Seq<u8>, y: Seq<u8>)
    requires
        has_at(b, o, x + y),
    ensures
        has_at(b, o, x),
        has_at(b, o + x.len(), y),
{
    let xy = x + y;
    assert forall|j: int| 0 <= j < x.len() implies b[o + j] == #[trigger] x[j] by {
        assert(xy[j] == x[j]);
    }
    assert forall|j: int| 0 <= j < y.len() implies b[o + x.len() + j] == #[trigger] y[j] by {
        assert(xy[x.len() + j] == y[j]);
        assert(b[o + (x.len() + j)] == xy[x.len() + j]);
    }
}

proof fn lemma_at_u8(b: Seq<u8>, o: int, v: u8)
    requires
        has_at(b, o, seq![v]),
    ensures
        rd_u8(b, o) == Ok::<(u8, int), Seq<char>>((v, o + 1)),
{
    assert(b[o + 0] == seq![v][0]);
}

proof fn lemma_at_bool(b: Seq<u8>, o: int, v: bool)
    requires
        has_at(b, o, wr_bool(v)),
    ensures
        rd_bool(b, o) == Ok::<(bool, int), Seq<char>>((v, o + 1)),
{
    assert(b[o + 0] == wr_bool(v)[0]);
}

proof fn lemma_at_u32(b: Seq<u8>, o: int, v: u32)
    requires
        has_at(b, o, le32(v)),
    ensures
        rd_u32(b, o) == Ok::<(u32, int), Seq<char>>((v, o + 4)),
{
    let x = le32(v);
    assert(b[o + 0] == x[0] && b[o + 1] == x[1] && b[o + 2] == x[2] && b[o + 3] == x[3]);
    lemma_get32_eq(b, o, v);
}

proof fn lemma_at_i32(b: Seq<u8>, o: int, v: i32)
    requires
        has_at(b, o, le32(v as u32)),
    ensures
        rd_i32(b, o) == Ok::<(i32, int), Seq<char>>((v, o + 4)),
{
    lemma_at_u32(b, o, v as u32);
    lemma_i32_round(v);
}

proof fn lemma_at_bytes(b: Seq<u8>, o: int, v: Seq<u8>)
    requires
        has_at(b, o, wr_bytes(v)),
        v.len() <= u32::MAX,
    ensures
        rd_bytes(b, o) == Ok::<(Seq<u8>, int), Seq<char>>((v, o + 4 + v.len())),
{
    lemma_has_split(b, o, le32(v.len() as u32), v);
    lemma_at_u32(b, o, v.len() as u32);
    assert(b.subrange(o + 4, o + 4 + v.len()) =~= v) by {
        assert forall|j: int| 0 <= j < v.len() implies b.subrange(o + 4, o + 4 + v.len())[j] == v[j] by {
            assert(b[o + 4 + j] == v[j]);
        }
    }
}

proof fn lemma_at_str(b: Seq<u8>, o: int, s: Seq<char>)
    requires
        has_at(b, o, wr_str(s)),
        encode_utf8(s).len() <= u32::MAX,
    ensures
        rd_str(b, o) == Ok::<(Seq<char>, int), Seq<char>>((s, o + wr_str(s).len())),
{
    let e = encode_utf8(s);
    lemma_at_bytes(b, o, e);
    lemma_rd_str_of_bytes(b, o, e, o + 4 + e.len());
    lemma_text_of_encoded(s);
}

proof fn lemma_enc_i32s_len(s: Seq<i32>)
    ensures
        enc_i32s(s).len() == 4 * s.len(),
    decreases s.len(),
{
    if s.len() > 0 {
        lemma_enc_i32s_len(s.drop_last());
    }
}

proof fn lemma_enc_bools_len(s: Seq<bool>)
    ensures
        enc_bools(s).len() == s.len(),
    decreases s.len(),
{
    if s.len() > 0 {
        lemma_enc_bools_len(s.drop_last());
    }
}

proof fn lemma_at_i32s(b: Seq<u8>, o: int, s: Seq<i32>)
    requires
        has_at(b, o, enc_i32s(s)),
    ensures
        rd_i32s(b, o, s.len()) == Ok::<(Seq<i32>, int), Seq<char>>((s, o + 4 * s.len())),
    decreases s.len(),
{
    if s.len() == 0 {
        assert(s =~= Seq::<i32>::empty());
    } else {
        let t = s.drop_last();
        lemma_has_split(b, o, enc_i32s(t), le32(s.last() as u32));
        lemma_at_i32s(b, o, t);
        lemma_enc_i32s_len(t);
        lemma_at_i32(b, o + 4 * t.len(), s.last());
        assert(t.push(s.last()) =~= s);
    }
}

proof fn lemma_at_bools(b: Seq<u8>, o: int, s: Seq<bool>)
    requires
        has_at(b, o, enc_bools(s)),
    ensures
        rd_bools(b, o, s.len()) == Ok::<(Seq<bool>, int), Seq<char>>((s, o + s.len())),
    decreases s.len(),
{
    if s.len() == 0 {
        assert(s =~= Seq::<bool>::empty());
    } else {
        let t = s.drop_last();
        lemma_has_split(b, o, enc_bools(t), wr_bool(s.last()));
        lemma_at_bools(b, o, t);
        lemma_enc_bools_len(t);
        lemma_at_bool(b, o + t.len(), s.last());
        assert(t.push(s.last()) =~= s);
    }
}

/// A blueprint fits the message when its pixel bytes fit a four-byte length.
pub open spec fn blueprint_fits(o: Option<BlueprintView>) -> bool {
    o matches Some(bp) ==> bp.bgra.len() <= u32::MAX
}

proof fn lemma_at_blueprint(b: Seq<u8>, o: int, bp: Option<BlueprintView>)
    requires
        has_at(b, o, enc_blueprint(bp)),
        blueprint_fits(bp),
    ensures
        rd_blueprint(b, o) == Ok::<(Option<BlueprintView>, int), Seq<char>>(
            (bp, o + enc_blueprint(bp).len()),
        ),
{
    match bp {
        None => {
            lemma_at_bool(b, o, false);
        },
        Some(v) => {
            let x0 = wr_bool(true);
            let x1 = le32(v.w as u32);
            let x2 = le32(v.h as u32);
            let x3 = wr_bytes(v.bgra);
            lemma_has_split(b, o, x0 + x1 + x2, x3);
            lemma_has_split(b, o, x0 + x1, x2);
            lemma_has_split(b, o, x0, x1);
            lemma_at_bool(b, o, true);
            lemma_at_i32(b, o + 1, v.w);
            lemma_at_i32(b, o + 5, v.h);
            lemma_at_bytes(b, o + 9, v.bgra);
            assert(BlueprintView { w: v.w, h: v.h, bgra: v.bgra } == v);
        },
    }
}

proof fn lemma_at_opt_u32(b: Seq<u8>, o: int, v: Option<u32>)
    requires
        has_at(b, o, enc_opt_u32(v)),
    ensures
        rd_opt_u32(b, o) == Ok::<(Option<u32>, int), Seq<char>>((v, o + enc_opt_u32(v).len())),
{
    match v {
        None => {
            lemma_at_bool(b, o, false);
        },
        Some(x) => {
            lemma_has_split(b, o, wr_bool(true), le32(x));
            lemma_at_bool(b, o, true);
            lemma_at_u32(b, o + 1, x);
        },
    }
}

/// Settings fit the message: twenty numbers, five flags, and blueprints that fit.
pub open spec fn options_fit(v: OptionsView) -> bool {
    &&& v.ints.len() == 20
    &&& v.flags.len() == 5
    &&& blueprint_fits(v.blueprint)
    &&& blueprint_fits(v.cave_blueprint)
}

proof fn lemma_at_options(b: Seq<u8>, o: int, v: OptionsView)
    requires
        has_at(b, o, enc_options(v)),
        options_fit(v),
    ensures
        rd_options(b, o) == Ok::<(OptionsView, int), Seq<char>>((v, o + enc_options(v).len())),
{
    let x0 = enc_i32s(v.ints);
    let x1 = enc_bools(v.flags);
    let x2 = enc_blueprint(v.blueprint);
    let x3 = enc_blueprint(v.cave_blueprint);
    let x4 = enc_opt_u32(v.rugedness_bits);
    lemma_enc_i32s_len(v.ints);
    lemma_enc_bools_len(v.flags);
    lemma_has_split(b, o, x0 + x1 + x2 + x3, x4);
    lemma_has_split(b, o, x0 + x1 + x2, x3);
    lemma_has_split(b, o, x0 + x1, x2);
    lemma_has_split(b, o, x0, x1);
    lemma_at_i32s(b, o, v.ints);
    lemma_at_bools(b, o + 80, v.flags);
    lemma_at_blueprint(b, o + 85, v.blueprint);
    lemma_at_blueprint(b, o + 85 + x2.len(), v.cave_blueprint);
    lemma_at_opt_u32(b, o + 85 + x2.len() + x3.len(), v.rugedness_bits);
}

proof fn lemma_at_mode(b: Seq<u8>, o: int, m: Mode)
    requires
        has_at(b, o, enc_mode(m)),
    ensures
        rd_mode(b, o) == Ok::<(Mode, int), Seq<char>>((m, o + enc_mode(m).len())),
{
    match m {
        Mode::Terrain => {
            lemma_at_u8(b, o, 0);
        },
        Mode::NewGame { players, per_player_bucket } => {
            let x1 = le32(players as u32);
            let x2 = le32(per_player_bucket as u32);
            lemma_has_split(b, o, seq![1u8] + x1, x2);
            lemma_has_split(b, o, seq![1u8], x1);
            lemma_at_u8(b, o, 1);
            lemma_at_i32(b, o + 1, players);
            lemma_at_i32(b, o + 5, per_player_bucket);
        },
        Mode::PerPlayer { players, per } => {
            let x1 = le32(players as u32);
            let x2 = le32(per as u32);
            lemma_has_split(b, o, seq![2u8] + x1, x2);
            lemma_has_split(b, o, seq![2u8], x1);
            lemma_at_u8(b, o, 2);
            lemma_at_i32(b, o + 1, players);
            lemma_at_i32(b, o + 5, per);
        },
    }
}

/// A job fits its message: settings that fit, and a name whose bytes fit a
/// four-byte length.
pub open spec fn job_fits(j: JobView) -> bool {
    &&& options_fit(j.opts)
    &&& encode_utf8(j.name).len() <= u32::MAX
}

/// A job survives the trip to the worker: decoding its message gives it back.
#[verifier::spinoff_prover]
#[verifier::rlimit(40)]
pub proof fn lemma_job_round_trip(j: JobView)
    requires
        job_fits(j),
    ensures
        spec_decode_job(enc_job(j)) == Ok::<JobView, Seq<char>>(j),
{
    let b = enc_job(j);
    let x0 = enc_options(j.opts);
    let x1 = le32(j.seed);
    let x2 = wr_str(j.name);
    let x3 = enc_mode(j.mode);
    assert(has_at(b, 0, b));
    lemma_has_split(b, 0, x0 + x1 + x2, x3);
    lemma_has_split(b, 0, x0 + x1, x2);
    lemma_has_split(b, 0, x0, x1);
    lemma_at_options(b, 0, j.opts);
    lemma_at_u32(b, x0.len() as int, j.seed);
    lemma_at_str(b, x0.len() + 4 as int, j.name);
    lemma_at_mode(b, x0.len() + 4 + x2.len() as int, j.mode);
}

fn put_blueprint(w: &mut Writer, b: &Option<Blueprint>)
    ensures
        final(w)@ == old(w)@ + enc_blueprint(opt_blueprint(*b)),
{
    match b {
        Some(b) => {
            w.bool(true);
            w.i32(b.w);
            w.i32(b.h);
            w.bytes(b.bgra.as_slice());
            assert(w@ =~= old(w)@ + enc_blueprint(opt_blueprint(Some(*b))));
        },
        None => w.bool(false),
    }
}

fn get_blueprint(r: &mut Reader) -> (out: Result<Option<Blueprint>, String>)
    requires
        old(r).wf(),
    ensures
        final(r).wf(),
        final(r).data() == old(r).data(),
        match rd_blueprint(old(r).data(), old(r).at()) {
            Ok((v, p)) => out is Ok && opt_blueprint(out->Ok_0) == v && final(r).at() == p,
            Err(e) => out is Err && out->Err_0@ == e,
        },
{
    if !r.bool()? {
        return Ok(None);
    }
    let w = r.i32()?;
    let h = r.i32()?;
    let bgra = vstd::slice::slice_to_vec(r.bytes()?);
    Ok(Some(Blueprint { w, h, bgra }))
}

proof fn lemma_rd_i32s_facts(b: Seq<u8>, pos: int, i: nat, k: nat)
    requires
        i <= k,
    ensures
        rd_i32s(b, pos, k) matches Ok((v, _)) ==> v.len() == k,
        rd_i32s(b, pos, i) is Err ==> rd_i32s(b, pos, k) == rd_i32s(b, pos, i),
    decreases k,
{
    if k > 0 {
        if i < k {
            lemma_rd_i32s_facts(b, pos, i, (k - 1) as nat);
        } else {
            lemma_rd_i32s_facts(b, pos, (k - 1) as nat, (k - 1) as nat);
        }
    }
}

proof fn lemma_rd_bools_facts(b: Seq<u8>, pos: int, i: nat, k: nat)
    requires
        i <= k,
    ensures
        rd_bools(b, pos, k) matches Ok((v, _)) ==> v.len() == k,
        rd_bools(b, pos, i) is Err ==> rd_bools(b, pos, k) == rd_bools(b, pos, i),
    decreases k,
{
    if k > 0 {
        if i < k {
            lemma_rd_bools_facts(b, pos, i, (k - 1) as nat);
        } else {
            lemma_rd_bools_facts(b, pos, (k - 1) as nat, (k - 1) as nat);
        }
    }
}

fn read_i32s(r: &mut Reader, k: usize) -> (out: Result<Vec<i32>, String>)
    requires
        old(r).wf(),
    ensures
        final(r).wf(),
        final(r).data() == old(r).data(),
        match rd_i32s(old(r).data(), old(r).at(), k as nat) {
            Ok((v, p)) => out is Ok && out->Ok_0@ == v && final(r).at() == p,
            Err(e) => out is Err && out->Err_0@ == e,
        },
{
    let mut v: Vec<i32> = Vec::new();
    let mut i: usize = 0;
    while i < k
        invariant
            r.wf(),
            r.data() == old(r).data(),
            i <= k,
            rd_i32s(old(r).data(), old(r).at(), i as nat) == Ok::<(Seq<i32>, int), Seq<char>>(
                (v@, r.at()),
            ),
        decreases k - i,
    {
        match r.i32() {
            Ok(x) => {
                v.push(x);
            },
            Err(e) => {
                proof {
                    lemma_rd_i32s_facts(old(r).data(), old(r).at(), (i + 1) as nat, k as nat);
                }
                return Err(e);
            },
        }
        i += 1;
    }
    Ok(v)
}

fn read_bools(r: &mut Reader, k: usize) -> (out: Result<Vec<bool>, String>)
    requires
        old(r).wf(),
    ensures
        final(r).wf(),
        final(r).data() == old(r).data(),
        match rd_bools(old(r).data(), old(r).at(), k as nat) {
            Ok((v, p)) => out is Ok && out->Ok_0@ == v && final(r).at() == p,
            Err(e) => out is Err && out->Err_0@ == e,
        },
{
    let mut v: Vec<bool> = Vec::new();
    let mut i: usize = 0;
    while i < k
        invariant
            r.wf(),
            r.data() == old(r).data(),
            i <= k,
            rd_bools(old(r).data(), old(r).at(), i as nat) == Ok::<(Seq<bool>, int), Seq<char>>(
                (v@, r.at()),
            ),
        decreases k - i,
    {
        match r.bool() {
            Ok(x) => {
                v.push(x);
            },
            Err(e) => {
                proof {
                    lemma_rd_bools_facts(old(r).data(), old(r).at(), (i + 1) as nat, k as nat);
                }
                return Err(e);
            },
        }
        i += 1;
    }
    Ok(v)
}

fn put_options(w: &mut Writer, o: &Options)
    ensures
        final(w)@ == old(w)@ + enc_options(o@),
{
    let ints = [
        o.width,
        o.height,
        o.provinces,
        o.sea_part,
        o.mount_part,
        o.forest_part,
        o.farm_part,
        o.swamp_part,
        o.waste_part,
        o.highland_part,
        o.kelp_part,
        o.gorge_part,
        o.river_part,
        o.hills,
        o.rugedness,
        o.sea_size,
        o.extra_islands,
        o.bridges,
        o.blue_acc,
        o.cave_part,
    ];
    assert(ints@ =~= o@.ints);
    let mut i: usize = 0;
    while i < 20
        invariant
            i <= 20,
            ints@ == o@.ints,
            w@ == old(w)@ + enc_i32s(o@.ints.take(i as int)),
        decreases 20 - i,
    {
        w.i32(ints[i]);
        assert(o@.ints.take(i + 1).drop_last() =~= o@.ints.take(i as int));
        assert(w@ =~= old(w)@ + enc_i32s(o@.ints.take(i + 1)));
        i += 1;
    }
    assert(o@.ints.take(20) =~= o@.ints);
    let ghost after_ints = w@;
    let flags = [o.no_water_prov, o.hwrap, o.vwrap, o.cave_world, o.caves_plane];
    assert(flags@ =~= o@.flags);
    let mut i: usize = 0;
    while i < 5
        invariant
            i <= 5,
            flags@ == o@.flags,
            w@ == after_ints + enc_bools(o@.flags.take(i as int)),
        decreases 5 - i,
    {
        w.bool(flags[i]);
        assert(o@.flags.take(i + 1).drop_last() =~= o@.flags.take(i as int));
        assert(w@ =~= after_ints + enc_bools(o@.flags.take(i + 1)));
        i += 1;
    }
    assert(o@.flags.take(5) =~= o@.flags);
    put_blueprint(w, &o.blueprint);
    put_blueprint(w, &o.cave_blueprint);
    match o.rugedness_bits {
        Some(f) => {
            w.bool(true);
            w.u32(f);
        },
        None => w.bool(false),
    }
    assert(w@ =~= old(w)@ + enc_options(o@));
}

fn get_options(r: &mut Reader) -> (out: Result<Options, String>)
    requires
        old(r).wf(),
    ensures
        final(r).wf(),
        final(r).data() == old(r).data(),
        match rd_options(old(r).data(), old(r).at()) {
            Ok((v, p)) => out is Ok && out->Ok_0@ == v && final(r).at() == p,
            Err(e) => out is Err && out->Err_0@ == e,
        },
{
    let ghost d = r.data();
    let ghost p0 = r.at();
    let v = read_i32s(r, 20)?;
    proof {
        lemma_rd_i32s_facts(d, p0, 20, 20);
    }
    let ghost p1 = r.at();
    let f = read_bools(r, 5)?;
    proof {
        lemma_rd_bools_facts(d, p1, 5, 5);
    }
    let blueprint = get_blueprint(r)?;
    let cave_blueprint = get_blueprint(r)?;
    let rugedness_bits = if r.bool()? {
        Some(r.u32()?)
    } else {
        None
    };
    let o = Options {
        width: v[0],
        height: v[1],
        provinces: v[2],
        sea_part: v[3],
        mount_part: v[4],
        forest_part: v[5],
        farm_part: v[6],
        swamp_part: v[7],
        waste_part: v[8],
        highland_part: v[9],
        kelp_part: v[10],
        gorge_part: v[11],
        river_part: v[12],
        hills: v[13],
        rugedness: v[14],
        sea_size: v[15],
        extra_islands: v[16],
        bridges: v[17],
        blue_acc: v[18],
        cave_part: v[19],
        no_water_prov: f[0],
        hwrap: f[1],
        vwrap: f[2],
        cave_world: f[3],
        caves_plane: f[4],
        blueprint,
        cave_blueprint,
        rugedness_bits,
    };
    assert(o@.ints =~= v@);
    assert(o@.flags =~= f@);
    Ok(o)
}

/// The message that hands a job to the worker.
pub fn encode_job(job: &Job) -> (out: Vec<u8>)
    ensures
        out@ == enc_job(job@),
{
    let mut w = Writer::default();
    put_options(&mut w, &job.opts);
    w.u32(job.seed);
    w.str(job.name.as_str());
    match job.mode {
        Mode::Terrain => w.u8(0),
        Mode::NewGame { players, per_player_bucket } => {
            w.u8(1);
            w.i32(players);
            w.i32(per_player_bucket);
        },
        Mode::PerPlayer { players, per } => {
            w.u8(2);
            w.i32(players);
            w.i32(per);
        },
    }
    assert(w@ =~= enc_job(job@));
    w.finish()
}

/// Reads a job message.
pub fn decode_job(bytes: &[u8]) -> (out: Result<Job, String>)
    ensures
        match spec_decode_job(bytes@) {
            Ok(v) => out is Ok && out->Ok_0@ == v,
            Err(e) => out is Err && out->Err_0@ == e,
        },
{
    let mut r = Reader::new(bytes);
    let opts = get_options(&mut r)?;
    let seed = r.u32()?;
    let name = r.str()?;
    let k = r.u8()?;
    let mode = if k == 0 {
        Mode::Terrain
    } else if k == 1 {
        let players = r.i32()?;
        let per_player_bucket = r.i32()?;
        Mode::NewGame { players, per_player_bucket }
    } else if k == 2 {
        let players = r.i32()?;
        let per = r.i32()?;
        Mode::PerPlayer { players, per }
    } else {
        let mut s = string_of("unknown generation mode ");
        push_decimal(&mut s, k as u64);
        return Err(s);
    };
    Ok(Job { opts, seed, name, mode })
}

/// A progress message: the stage's place in the generator's list of stages,
/// and how much of it is done.
pub open spec fn enc_progress(stage: u8, done: u32, total: u32) -> Seq<u8> {
    seq![PROGRESS, stage] + le32(done) + le32(total)
}

/// What a progress message holds, for a generator with `stages` stages.
pub open spec fn spec_decode_progress(b: Seq<u8>, stages: nat) -> Result<(u8, u32, u32), Seq<char>> {
    match rd_u8(b, 0) {
        Err(e) => Err(e),
        Ok((k, p0)) => if k != PROGRESS {
            Err("not a progress message"@)
        } else {
            match rd_u8(b, p0) {
                Err(e) => Err(e),
                Ok((index, p1)) => if index >= stages {
                    Err("unknown stage "@ + decimal(index as nat))
                } else {
                    match rd_u32(b, p1) {
                        Err(e) => Err(e),
                        Ok((done, p2)) => match rd_u32(b, p2) {
                            Err(e) => Err(e),
                            Ok((total, _)) => Ok((index, done, total)),
                        },
                    }
                },
            }
        },
    }
}

/// The message that reports progress through a stage, given by its place in
/// the generator's list of stages.
pub fn encode_progress(stage: u8, done: u32, total: u32) -> (out: Vec<u8>)
    ensures
        out@ == enc_progress(stage, done, total),
{
    let mut w = Writer::default();
    w.u8(PROGRESS);
    w.u8(stage);
    w.u32(done);
    w.u32(total);
    assert(w@ =~= enc_progress(stage, done, total));
    w.finish()
}

/// Reads a progress message of a generator with `stages` stages.
pub fn decode_progress(bytes: &[u8], stages: usize) -> (out: Result<(u8, u32, u32), String>)
    ensures
        match spec_decode_progress(bytes@, stages as nat) {
            Ok(v) => out == Ok::<(u8, u32, u32), String>(v),
            Err(e) => out is Err && out->Err_0@ == e,
        },
{
    let mut r = Reader::new(bytes);
    if r.u8()? != PROGRESS {
        return Err(string_of("not a progress message"));
    }
    let index = r.u8()?;
    if index as usize >= stages {
        let mut s = string_of("unknown stage ");
        push_decimal(&mut s, index as u64);
        return Err(s);
    }
    let done = r.u32()?;
    let total = r.u32()?;
    Ok((index, done, total))
}

/// A progress report survives its message, for a stage the generator has.
#[verifier::spinoff_prover]
#[verifier::rlimit(60)]
pub proof fn lemma_progress_round_trip(stage: u8, done: u32, total: u32, stages: nat)
    requires
        stage < stages,
    ensures
        spec_decode_progress(enc_progress(stage, done, total), stages) == Ok::<(u8, u32, u32), Seq<char>>(
            (stage, done, total),
        ),
{
    let b = enc_progress(stage, done, total);
    assert(has_at(b, 0, b));
    lemma_has_split(b, 0, seq![PROGRESS, stage] + le32(done), le32(total));
    lemma_has_split(b, 0, seq![PROGRESS, stage], le32(done));
    lemma_has_split(b, 0, seq![PROGRESS], seq![stage]);
    assert(seq![PROGRESS] + seq![stage] =~= seq![PROGRESS, stage]);
    lemma_at_u8(b, 0, PROGRESS);
    lemma_at_u8(b, 1, stage);
    lemma_at_u32(b, 2, done);
    lemma_at_u32(b, 6, total);
}

/// A tunnel between the surface and the cave plane: a province of each.
#[derive(Clone, Copy, Debug, PartialEq, Eq, Structural)]
pub struct Gate {
    pub surface: u16,
    pub cave: u16,
}

/// A generated plane as plain values.
#[verifier::ext_equal]
pub struct PlaneView {
    pub d6m: Seq<u8>,
    pub map_text: Seq<char>,
    pub width: i32,
    pub height: i32,
    pub provinces: usize,
}

impl View for GeneratedPlane {
    type V = PlaneView;

    open spec fn view(&self) -> PlaneView {
        PlaneView {
            d6m: self.d6m@,
            map_text: self.map_text@,
            width: self.width,
            height: self.height,
            provinces: self.provinces,
        }
    }
}

/// The planes as plain values.
pub open spec fn planes_view(ps: Seq<GeneratedPlane>) -> Seq<PlaneView> {
    ps.map_values(|p: GeneratedPlane| p@)
}

/// A plane as sent: size, province count, image bytes, map text.
pub open spec fn enc_plane(p: PlaneView) -> Seq<u8> {
    le32(p.width as u32) + le32(p.height as u32) + le32(p.provinces as u32) + wr_bytes(p.d6m)
        + wr_str(p.map_text)
}

/// Planes sent one after another.
pub open spec fn enc_planes(ps: Seq<PlaneView>) -> Seq<u8>
    decreases ps.len(),
{
    if ps.len() == 0 {
        Seq::empty()
    } else {
        enc_planes(ps.drop_last()) + enc_plane(ps.last())
    }
}

/// A gate as sent: two four-byte province numbers.
pub open spec fn enc_gate(g: Gate) -> Seq<u8> {
    le32(g.surface as u32) + le32(g.cave as u32)
}

/// Gates sent one after another.
pub open spec fn enc_gates(gs: Seq<Gate>) -> Seq<u8>
    decreases gs.len(),
{
    if gs.len() == 0 {
        Seq::empty()
    } else {
        enc_gates(gs.drop_last()) + enc_gate(gs.last())
    }
}

/// The message that hands back a finished map: its planes, then its gates.
pub open spec fn enc_done(ps: Seq<PlaneView>, gs: Seq<Gate>) -> Seq<u8> {
    seq![DONE] + le32(ps.len() as u32) + enc_planes(ps) + le32(gs.len() as u32) + enc_gates(gs)
}

/// A plane read at `pos`.
pub open spec fn rd_plane(b: Seq<u8>, pos: int) -> Result<(PlaneView, int), Seq<char>> {
    match rd_i32(b, pos) {
        Err(e) => Err(e),
        Ok((width, p1)) => match rd_i32(b, p1) {
            Err(e) => Err(e),
            Ok((height, p2)) => match rd_u32(b, p2) {
                Err(e) => Err(e),
                Ok((provinces, p3)) => match rd_bytes(b, p3) {
                    Err(e) => Err(e),
                    Ok((d6m, p4)) => match rd_str(b, p4) {
                        Err(e) => Err(e),
                        Ok((map_text, p5)) => Ok(
                            (
                                PlaneView {
                                    d6m,
                                    map_text,
                                    width,
                                    height,
                                    provinces: provinces as usize,
                                },
                                p5,
                            ),
                        ),
                    },
                },
            },
        },
    }
}

/// `k` planes read from `pos` on.
pub open spec fn rd_planes(b: Seq<u8>, pos: int, k: nat) -> Result<(Seq<PlaneView>, int), Seq<char>>
    decreases k,
{
    if k == 0 {
        Ok((Seq::empty(), pos))
    } else {
        match rd_planes(b, pos, (k - 1) as nat) {
            Ok((s, p)) => match rd_plane(b, p) {
                Ok((v, q)) => Ok((s.push(v), q)),
                Err(e) => Err(e),
            },
            Err(e) => Err(e),
        }
    }
}

/// A gate read at `pos`; the numbers are cut to 16 bits.
pub open spec fn rd_gate(b: Seq<u8>, pos: int) -> Result<(Gate, int), Seq<char>> {
    match rd_u32(b, pos) {
        Err(e) => Err(e),
        Ok((s, p1)) => match rd_u32(b, p1) {
            Err(e) => Err(e),
            Ok((c, p2)) => Ok((Gate { surface: s as u16, cave: c as u16 }, p2)),
        },
    }
}

/// `k` gates read from `pos` on.
pub open spec fn rd_gates(b: Seq<u8>, pos: int, k: nat) -> Result<(Seq<Gate>, int), Seq<char>>
    decreases k,
{
    if k == 0 {
        Ok((Seq::empty(), pos))
    } else {
        match rd_gates(b, pos, (k - 1) as nat) {
            Ok((s, p)) => match rd_gate(b, p) {
                Ok((v, q)) => Ok((s.push(v), q)),
                Err(e) => Err(e),
            },
            Err(e) => Err(e),
        }
    }
}

/// What a finished-map message holds; it must end where its last gate ends.
pub open spec fn spec_decode_done(b: Seq<u8>) -> Result<(Seq<PlaneView>, Seq<Gate>), Seq<char>> {
    match rd_u8(b, 0) {
        Err(e) => Err(e),
        Ok((k, p0)) => if k != DONE {
            Err("not a result message"@)
        } else {
            match rd_u32(b, p0) {
                Err(e) => Err(e),
                Ok((n, p1)) => match rd_planes(b, p1, n as nat) {
                    Err(e) => Err(e),
                    Ok((ps, p2)) => match rd_u32(b, p2) {
                        Err(e) => Err(e),
                        Ok((m, p3)) => match rd_gates(b, p3, m as nat) {
                            Err(e) => Err(e),
                            Ok((gs, p4)) => if p4 < b.len() {
                                Err("result message has trailing bytes"@)
                            } else {
                                Ok((ps, gs))
                            },
                        },
                    },
                },
            }
        },
    }
}

proof fn lemma_rd_planes_facts(b: Seq<u8>, pos: int, i: nat, k: nat)
    requires
        i <= k,
    ensures
        rd_planes(b, pos, i) is Err ==> rd_planes(b, pos, k) == rd_planes(b, pos, i),
    decreases k,
{
    if k > 0 && i < k {
        lemma_rd_planes_facts(b, pos, i, (k - 1) as nat);
    }
}

proof fn lemma_rd_gates_facts(b: Seq<u8>, pos: int, i: nat, k: nat)
    requires
        i <= k,
    ensures
        rd_gates(b, pos, i) is Err ==> rd_gates(b, pos, k) == rd_gates(b, pos, i),
    decreases k,
{
    if k > 0 && i < k {
        lemma_rd_gates_facts(b, pos, i, (k - 1) as nat);
    }
}

fn put_plane(w: &mut Writer, p: &GeneratedPlane)
    ensures
        final(w)@ == old(w)@ + enc_plane(p@),
{
    w.i32(p.width);
    w.i32(p.height);
    w.u32(p.provinces as u32);
    w.bytes(p.d6m.as_slice());
    w.str(p.map_text.as_str());
    assert(w@ =~= old(w)@ + enc_plane(p@));
}

fn get_plane(r: &mut Reader) -> (out: Result<GeneratedPlane, String>)
    requires
        old(r).wf(),
    ensures
        final(r).wf(),
        final(r).data() == old(r).data(),
        match rd_plane(old(r).data(), old(r).at()) {
            Ok((v, p)) => out is Ok && out->Ok_0@ == v && final(r).at() == p,
            Err(e) => out is Err && out->Err_0@ == e,
        },
{
    let width = r.i32()?;
    let height = r.i32()?;
    let provinces = r.u32()? as usize;
    let d6m = vstd::slice::slice_to_vec(r.bytes()?);
    let map_text = r.str()?;
    Ok(GeneratedPlane { d6m, map_text, width, height, provinces })
}

/// The message that hands back a finished map.
pub fn encode_done(planes: &[GeneratedPlane], gates: &[Gate]) -> (out: Vec<u8>)
    ensures
        out@ == enc_done(planes_view(planes@), gates@),
{
    let mut w = Writer::default();
    w.u8(DONE);
    w.u32(planes.len() as u32);
    let ghost head = w@;
    let mut i: usize = 0;
    while i < planes.len()
        invariant
            i <= planes@.len(),
            w@ == head + enc_planes(planes_view(planes@.take(i as int))),
        decreases planes@.len() - i,
    {
        put_plane(&mut w, &planes[i]);
        assert(planes_view(planes@.take(i + 1)).drop_last() =~= planes_view(planes@.take(i as int)));
        assert(w@ =~= head + enc_planes(planes_view(planes@.take(i + 1))));
        i += 1;
    }
    assert(planes@.take(planes@.len() as int) =~= planes@);
    w.u32(gates.len() as u32);
    let ghost mid = w@;
    let mut i: usize = 0;
    while i < gates.len()
        invariant
            i <= gates@.len(),
            w@ == mid + enc_gates(gates@.take(i as int)),
        decreases gates@.len() - i,
    {
        let g = gates[i];
        w.u32(g.surface as u32);
        w.u32(g.cave as u32);
        assert(gates@.take(i + 1).drop_last() =~= gates@.take(i as int));
        assert(w@ =~= mid + enc_gates(gates@.take(i + 1)));
        i += 1;
    }
    assert(gates@.take(gates@.len() as int) =~= gates@);
    assert(w@ =~= enc_done(planes_view(planes@), gates@));
    w.finish()
}

/// Reads a finished-map message.
pub fn decode_done(bytes: &[u8]) -> (out: Result<(Vec<GeneratedPlane>, Vec<Gate>), String>)
    ensures
        match spec_decode_done(bytes@) {
            Ok((ps, gs)) => out is Ok && planes_view(out->Ok_0.0@) == ps && out->Ok_0.1@ == gs,
            Err(e) => out is Err && out->Err_0@ == e,
        },
{
    let mut r = Reader::new(bytes);
    if r.u8()? != DONE {
        return Err(string_of("not a result message"));
    }
    let n = r.u32()?;
    let ghost d = r.data();
    let ghost p1 = r.at();
    assert(d == bytes@);
    let mut planes: Vec<GeneratedPlane> = Vec::new();
    assert(planes_view(planes@) =~= Seq::<PlaneView>::empty());
    let mut i: u32 = 0;
    while i < n
        invariant
            r.wf(),
            r.data() == d,
            d == bytes@,
            rd_u8(d, 0) == Ok::<(u8, int), Seq<char>>((DONE, 1)),
            rd_u32(d, 1) == Ok::<(u32, int), Seq<char>>((n, p1)),
            i <= n,
            rd_planes(d, p1, i as nat) == Ok::<(Seq<PlaneView>, int), Seq<char>>(
                (planes_view(planes@), r.at()),
            ),
        decreases n - i,
    {
        match get_plane(&mut r) {
            Ok(p) => {
                let ghost before = planes@;
                planes.push(p);
                assert(planes_view(planes@) =~= planes_view(before).push(p@));
            },
            Err(e) => {
                proof {
                    lemma_rd_planes_facts(d, p1, (i + 1) as nat, n as nat);
                }
                return Err(e);
            },
        }
        i += 1;
    }
    let ghost p2 = r.at();
    let m = r.u32()?;
    let ghost p3 = r.at();
    let mut gates: Vec<Gate> = Vec::new();
    let mut j: u32 = 0;
    while j < m
        invariant
            r.wf(),
            r.data() == d,
            d == bytes@,
            rd_u8(d, 0) == Ok::<(u8, int), Seq<char>>((DONE, 1)),
            rd_u32(d, 1) == Ok::<(u32, int), Seq<char>>((n, p1)),
            rd_planes(d, p1, n as nat) == Ok::<(Seq<PlaneView>, int), Seq<char>>((planes_view(planes@), p2)),
            rd_u32(d, p2) == Ok::<(u32, int), Seq<char>>((m, p3)),
            j <= m,
            rd_gates(d, p3, j as nat) == Ok::<(Seq<Gate>, int), Seq<char>>((gates@, r.at())),
        decreases m - j,
    {
        let ghost at = r.at();
        let s = match r.u32() {
            Ok(s) => s,
            Err(e) => {
                proof {
                    lemma_rd_gates_facts(d, p3, (j + 1) as nat, m as nat);
                }
                return Err(e);
            },
        };
        let c = match r.u32() {
            Ok(c) => c,
            Err(e) => {
                proof {
                    lemma_rd_gates_facts(d, p3, (j + 1) as nat, m as nat);
                }
                return Err(e);
            },
        };
        let ghost before = gates@;
        gates.push(Gate { surface: s as u16, cave: c as u16 });
        assert(rd_gate(d, at) == Ok::<(Gate, int), Seq<char>>((Gate { surface: s as u16, cave: c as u16 }, r.at())));
        j += 1;
    }
    if !r.done() {
        return Err(string_of("result message has trailing bytes"));
    }
    Ok((planes, gates))
}

/// A plane fits its message: the counts and the byte strings fit four bytes.
pub open spec fn plane_fits(p: PlaneView) -> bool {
    &&& p.provinces <= u32::MAX
    &&& p.d6m.len() <= u32::MAX
    &&& encode_utf8(p.map_text).len() <= u32::MAX
}

proof fn lemma_at_plane(b: Seq<u8>, o: int, p: PlaneView)
    requires
        has_at(b, o, enc_plane(p)),
        plane_fits(p),
    ensures
        rd_plane(b, o) == Ok::<(PlaneView, int), Seq<char>>((p, o + enc_plane(p).len())),
{
    let x0 = le32(p.width as u32);
    let x1 = le32(p.height as u32);
    let x2 = le32(p.provinces as u32);
    let x3 = wr_bytes(p.d6m);
    let x4 = wr_str(p.map_text);
    lemma_has_split(b, o, x0 + x1 + x2 + x3, x4);
    lemma_has_split(b, o, x0 + x1 + x2, x3);
    lemma_has_split(b, o, x0 + x1, x2);
    lemma_has_split(b, o, x0, x1);
    lemma_at_i32(b, o, p.width);
    lemma_at_i32(b, o + 4, p.height);
    lemma_at_u32(b, o + 8, p.provinces as u32);
    lemma_at_bytes(b, o + 12, p.d6m);
    lemma_at_str(b, o + 16 + p.d6m.len(), p.map_text);
    assert(PlaneView {
        d6m: p.d6m,
        map_text: p.map_text,
        width: p.width,
        height: p.height,
        provinces: (p.provinces as u32) as usize,
    } == p);
}

proof fn lemma_at_planes(b: Seq<u8>, o: int, ps: Seq<PlaneView>)
    requires
        has_at(b, o, enc_planes(ps)),
        forall|k: int| 0 <= k < ps.len() ==> plane_fits(#[trigger] ps[k]),
    ensures
        rd_planes(b, o, ps.len()) == Ok::<(Seq<PlaneView>, int), Seq<char>>(
            (ps, o + enc_planes(ps).len()),
        ),
    decreases ps.len(),
{
    if ps.len() == 0 {
        assert(ps =~= Seq::<PlaneView>::empty());
    } else {
        let t = ps.drop_last();
        lemma_has_split(b, o, enc_planes(t), enc_plane(ps.last()));
        assert forall|k: int| 0 <= k < t.len() implies plane_fits(#[trigger] t[k]) by {
            assert(t[k] == ps[k]);
        }
        lemma_at_planes(b, o, t);
        assert(plane_fits(ps[ps.len() - 1]));
        lemma_at_plane(b, o + enc_planes(t).len(), ps.last());
        assert(t.push(ps.last()) =~= ps);
    }
}

proof fn lemma_at_gates(b: Seq<u8>, o: int, gs: Seq<Gate>)
    requires
        has_at(b, o, enc_gates(gs)),
    ensures
        rd_gates(b, o, gs.len()) == Ok::<(Seq<Gate>, int), Seq<char>>((gs, o + enc_gates(gs).len())),
    decreases gs.len(),
{
    if gs.len() == 0 {
        assert(gs =~= Seq::<Gate>::empty());
    } else {
        let t = gs.drop_last();
        let g = gs.last();
        lemma_has_split(b, o, enc_gates(t), enc_gate(g));
        lemma_at_gates(b, o, t);
        let q = o + enc_gates(t).len();
        lemma_has_split(b, q, le32(g.surface as u32), le32(g.cave as u32));
        lemma_at_u32(b, q, g.surface as u32);
        lemma_at_u32(b, q + 4, g.cave as u32);
        assert(Gate { surface: (g.surface as u32) as u16, cave: (g.cave as u32) as u16 } == g);
        assert(t.push(g) =~= gs);
    }
}

/// A finished map survives the trip back from the worker: decoding its
/// message gives back its planes and gates.
#[verifier::spinoff_prover]
#[verifier::rlimit(60)]
pub proof fn lemma_done_round_trip(ps: Seq<PlaneView>, gs: Seq<Gate>)
    requires
        ps.len() <= u32::MAX,
        gs.len() <= u32::MAX,
        forall|k: int| 0 <= k < ps.len() ==> plane_fits(#[trigger] ps[k]),
    ensures
        spec_decode_done(enc_done(ps, gs)) == Ok::<(Seq<PlaneView>, Seq<Gate>), Seq<char>>((ps, gs)),
{
    let b = enc_done(ps, gs);
    let x0 = seq![DONE];
    let x1 = le32(ps.len() as u32);
    let x2 = enc_planes(ps);
    let x3 = le32(gs.len() as u32);
    let x4 = enc_gates(gs);
    assert(has_at(b, 0, b));
    lemma_has_split(b, 0, x0 + x1 + x2 + x3, x4);
    lemma_has_split(b, 0, x0 + x1 + x2, x3);
    lemma_has_split(b, 0, x0 + x1, x2);
    lemma_has_split(b, 0, x0, x1);
    lemma_at_u8(b, 0, DONE);
    lemma_at_u32(b, 1, ps.len() as u32);
    lemma_at_planes(b, 5, ps);
    lemma_at_u32(b, 5 + x2.len() as int, gs.len() as u32);
    lemma_at_gates(b, 9 + x2.len() as int, gs);
}


proof fn lemma_has_prefix(b: Seq<u8>, extra: Seq<u8>)
    ensures
        has_at(b + extra, 0, b),
{
    assert forall|j: int| 0 <= j < b.len() implies (b + extra)[0 + j] == #[trigger] b[j] by {}
}

/// A finished-map message with bytes after it is refused.
#[verifier::spinoff_prover]
#[verifier::rlimit(60)]
pub proof fn lemma_done_trailing(ps: Seq<PlaneView>, gs: Seq<Gate>, extra: Seq<u8>)
    requires
        ps.len() <= u32::MAX,
        gs.len() <= u32::MAX,
        forall|k: int| 0 <= k < ps.len() ==> plane_fits(#[trigger] ps[k]),
        extra.len() > 0,
    ensures
        spec_decode_done(enc_done(ps, gs) + extra) == Err::<(Seq<PlaneView>, Seq<Gate>), Seq<char>>(
            "result message has trailing bytes"@,
        ),
{
    let e = enc_done(ps, gs);
    let b = e + extra;
    let x0 = seq![DONE];
    let x1 = le32(ps.len() as u32);
    let x2 = enc_planes(ps);
    let x3 = le32(gs.len() as u32);
    let x4 = enc_gates(gs);
    lemma_has_prefix(e, extra);
    assert(e == x0 + x1 + x2 + x3 + x4);
    lemma_has_split(b, 0, x0 + x1 + x2 + x3, x4);
    lemma_has_split(b, 0, x0 + x1 + x2, x3);
    lemma_has_split(b, 0, x0 + x1, x2);
    lemma_has_split(b, 0, x0, x1);
    lemma_at_u8(b, 0, DONE);
    lemma_at_u32(b, 1, ps.len() as u32);
    lemma_at_planes(b, 5, ps);
    lemma_at_u32(b, 5 + x2.len() as int, gs.len() as u32);
    lemma_at_gates(b, 9 + x2.len() as int, gs);
}

/// A message whose first byte is not the finished-map mark is no result.
pub proof fn lemma_not_a_result(b: Seq<u8>)
    requires
        b.len() > 0,
        b[0] != DONE,
    ensures
        spec_decode_done(b) == Err::<(Seq<PlaneView>, Seq<Gate>), Seq<char>>("not a result message"@),
{
    lemma_at_u8(b, 0, b[0]);
}

/// A job message whose mode byte is none of the three modes is refused,
/// naming the byte.
#[verifier::spinoff_prover]
#[verifier::rlimit(40)]
pub proof fn lemma_job_unknown_mode(j: JobView, k: u8, rest: Seq<u8>)
    requires
        job_fits(j),
        k > 2,
    ensures
        spec_decode_job(enc_options(j.opts) + le32(j.seed) + wr_str(j.name) + seq![k] + rest)
            == Err::<JobView, Seq<char>>("unknown generation mode "@ + decimal(k as nat)),
{
    let x0 = enc_options(j.opts);
    let x1 = le32(j.seed);
    let x2 = wr_str(j.name);
    let x3 = seq![k];
    let b = x0 + x1 + x2 + x3 + rest;
    lemma_has_prefix(x0 + x1 + x2 + x3, rest);
    lemma_has_split(b, 0, x0 + x1 + x2, x3);
    lemma_has_split(b, 0, x0 + x1, x2);
    lemma_has_split(b, 0, x0, x1);
    lemma_at_options(b, 0, j.opts);
    lemma_at_u32(b, x0.len() as int, j.seed);
    lemma_at_str(b, x0.len() + 4 as int, j.name);
    lemma_at_u8(b, x0.len() + 4 + x2.len() as int, k);
}


/// A value as a message carries it.
pub enum Carried {
    Byte(u8),
    Flag(bool),
    Signed(i32),
    Unsigned(u32),
    Text(Seq<char>),
    Bytes(Seq<u8>),
}

/// The bytes a writer appends for a value.
pub open spec fn wr_carried(c: Carried) -> Seq<u8> {
    match c {
        Carried::Byte(v) => seq![v],
        Carried::Flag(v) => wr_bool(v),
        Carried::Signed(v) => le32(v as u32),
        Carried::Unsigned(v) => le32(v),
        Carried::Text(t) => wr_str(t),
        Carried::Bytes(b) => wr_bytes(b),
    }
}

/// The value of the same kind as `c` read at `pos`, and where the next read
/// starts.
pub open spec fn rd_carried(b: Seq<u8>, pos: int, c: Carried) -> Result<(Carried, int), Seq<char>> {
    match c {
        Carried::Byte(_) => match rd_u8(b, pos) {
            Ok((v, p)) => Ok((Carried::Byte(v), p)),
            Err(e) => Err(e),
        },
        Carried::Flag(_) => match rd_bool(b, pos) {
            Ok((v, p)) => Ok((Carried::Flag(v), p)),
            Err(e) => Err(e),
        },
        Carried::Signed(_) => match rd_i32(b, pos) {
            Ok((v, p)) => Ok((Carried::Signed(v), p)),
            Err(e) => Err(e),
        },
        Carried::Unsigned(_) => match rd_u32(b, pos) {
            Ok((v, p)) => Ok((Carried::Unsigned(v), p)),
            Err(e) => Err(e),
        },
        Carried::Text(_) => match rd_str(b, pos) {
            Ok((v, p)) => Ok((Carried::Text(v), p)),
            Err(e) => Err(e),
        },
        Carried::Bytes(_) => match rd_bytes(b, pos) {
            Ok((v, p)) => Ok((Carried::Bytes(v), p)),
            Err(e) => Err(e),
        },
    }
}

/// A value whose length, where it has one, fits the four-byte prefix.
pub open spec fn carriable(c: Carried) -> bool {
    match c {
        Carried::Text(t) => encode_utf8(t).len() <= u32::MAX,
        Carried::Bytes(b) => b.len() <= u32::MAX,
        _ => true,
    }
}

/// The bytes a writer holds after writing the values in order.
pub open spec fn wr_all(cs: Seq<Carried>) -> Seq<u8>
    decreases cs.len(),
{
    if cs.len() == 0 {
        Seq::empty()
    } else {
        wr_all(cs.drop_last()) + wr_carried(cs.last())
    }
}

proof fn lemma_wr_all_split(cs: Seq<Carried>, i: int)
    requires
        0 <= i < cs.len(),
    ensures
        wr_all(cs.take(i + 1)) == wr_all(cs.take(i)) + wr_carried(cs[i]),
        wr_all(cs.take(i + 1)).len() <= wr_all(cs).len(),
        wr_all(cs).take(wr_all(cs.take(i + 1)).len() as int) == wr_all(cs.take(i + 1)),
        wr_all(cs) == wr_all(cs.take(i + 1)) + wr_all(cs).skip(wr_all(cs.take(i + 1)).len() as int),
    decreases cs.len(),
{
    assert(cs.take(i + 1).drop_last() =~= cs.take(i));
    assert(cs.take(i + 1).last() == cs[i]);
    if i + 1 == cs.len() {
        assert(cs.take(i + 1) =~= cs);
        assert(wr_all(cs).skip(wr_all(cs).len() as int) =~= Seq::<u8>::empty());
        assert(wr_all(cs).take(wr_all(cs).len() as int) =~= wr_all(cs));
    } else {
        let d = cs.drop_last();
        lemma_wr_all_split(d, i);
        assert(d.take(i) =~= cs.take(i));
        assert(d.take(i + 1) =~= cs.take(i + 1));
        assert(d[i] == cs[i]);
        let w = wr_all(cs.take(i + 1));
        assert(wr_all(cs) == wr_all(d) + wr_carried(cs.last()));
        assert(wr_all(cs).take(w.len() as int) =~= wr_all(d).take(w.len() as int));
        assert(wr_all(cs).skip(w.len() as int) =~= wr_all(d).skip(w.len() as int) + wr_carried(cs.last()));
    }
    let w = wr_all(cs.take(i + 1));
    assert(wr_all(cs) =~= wr_all(cs).take(w.len() as int) + wr_all(cs).skip(w.len() as int));
}

/// What is written is read back in the same order: where a writer wrote
/// values, each with a length that fits its prefix, a reader that reads
/// values of the same kinds from the start gets each value back, the `i`-th
/// read starting where the bytes of the values before it end; after the
/// last, it stands at the end of the message.
#[verifier::spinoff_prover]
#[verifier::rlimit(60)]
pub proof fn lemma_read_back_in_order(cs: Seq<Carried>, i: int)
    requires
        0 <= i < cs.len(),
        forall|j: int| 0 <= j < cs.len() ==> #[trigger] carriable(cs[j]),
    ensures
        rd_carried(wr_all(cs), wr_all(cs.take(i)).len() as int, cs[i]) == Ok::<(Carried, int), Seq<char>>(
            (cs[i], wr_all(cs.take(i + 1)).len() as int),
        ),
        wr_all(cs.take(cs.len() as int)) == wr_all(cs),
{
    lemma_wr_all_split(cs, i);
    assert(cs.take(cs.len() as int) =~= cs);
    let pre = wr_all(cs.take(i));
    let w = wr_all(cs.take(i + 1));
    let post = wr_all(cs).skip(w.len() as int);
    let b = wr_all(cs);
    assert(b == w + post);
    assert(b =~= pre + wr_carried(cs[i]) + post);
    assert(carriable(cs[i]));
    match cs[i] {
        Carried::Byte(v) => {
            lemma_rd_u8(pre, v, post);
        },
        Carried::Flag(v) => {
            lemma_rd_bool(pre, v, post);
        },
        Carried::Signed(v) => {
            lemma_rd_i32(pre, v, post);
        },
        Carried::Unsigned(v) => {
            lemma_rd_u32(pre, v, post);
        },
        Carried::Text(t) => {
            lemma_rd_str(pre, t, post);
        },
        Carried::Bytes(x) => {
            lemma_rd_bytes(pre, x, post);
        },
    }
}

} // verus!
