//! The packed-bit canvas and its diff-based packet transmission.
//!
//! A screen is a `width x height` monochrome canvas packed one pixel per bit,
//! row-major: pixel `(x, y)` lives in byte `(y*width + x) / 8` under the bit
//! selected by index `7 - x % 8` (see [`crate::bits`]).  The same formula is
//! used by every read and every write.

use vstd::arithmetic::div_mod::{
    lemma_div_is_ordered, lemma_div_pos_is_pos, lemma_fundamental_div_mod,
    lemma_fundamental_div_mod_converse, lemma_mod_division_less_than_divisor,
    lemma_mod_multiples_vanish,
};
use vstd::arithmetic::mul::{
    lemma_mul_inequality, lemma_mul_is_commutative, lemma_mul_is_distributive_sub_other_way,
    lemma_mul_nonnegative,
};
use vstd::prelude::*;

use crate::bits::{bit_at, get_bit_at_index, lemma_with_bit, set_bit_at_index, with_bit};
use crate::packet::{packet_views, DataPacket, PacketModel, PAYLOAD_SIZE};
use crate::transport::{DriverError, HidAdapter};

verus! {

/// Mathematical content of a screen: its dimensions, its packed bytes, and
/// the packet sequence of the last transmitted frame, if any.
pub struct ScreenModel {
    pub width: int,
    pub height: int,
    pub data: Seq<u8>,
    pub prev_packets: Option<Seq<PacketModel>>,
}

impl ScreenModel {
    /// Well-formed canvas: the width is a whole number of bytes, the byte
    /// buffer covers the pixel grid exactly, the pixel count fits the
    /// machine, and the buffer needs at most 256 packets (the packet index
    /// must fit in one byte).
    pub open spec fn wf(self) -> bool {
        &&& 0 <= self.width
        &&& 0 <= self.height
        &&& self.width % 8 == 0
        &&& self.width * self.height <= usize::MAX
        &&& self.data.len() == self.width * self.height / 8
        &&& self.data.len() <= 256 * (PAYLOAD_SIZE - 2)
    }

    /// Pixel `(x, y)` lies on the canvas.
    pub open spec fn in_range(self, x: int, y: int) -> bool {
        0 <= x < self.width && 0 <= y < self.height
    }

    /// The canvas as a row-major pixel sequence: entry `y*width + x` is the
    /// state of pixel `(x, y)`.
    pub open spec fn grid(self) -> Seq<bool> {
        Seq::new(
            (self.width * self.height) as nat,
            |n: int| bit_at(self.data[n / 8], (7 - n % 8) as u8),
        )
    }

    /// On/off state of pixel `(x, y)`.
    pub open spec fn pixel(self, x: int, y: int) -> bool {
        self.grid()[y * self.width + x]
    }

    /// Byte of `data` that holds pixel `(x, y)`.
    pub open spec fn byte_index(self, x: int, y: int) -> int {
        (y * self.width + x) / 8
    }

    /// Index (counted from the most significant bit) of the bit of that byte
    /// that holds pixel `(x, y)`.
    pub open spec fn bit_index(self, x: int) -> u8 {
        (7 - x % 8) as u8
    }
}

/// Bounds and alignment facts for the linear position `y*w + x` of an
/// in-range pixel.
proof fn lemma_pos(w: int, h: int, x: int, y: int)
    requires
        0 <= x < w,
        0 <= y < h,
        w % 8 == 0,
    ensures
        0 <= y * w + x < w * h,
        (y * w + x) % 8 == x % 8,
        0 <= (y * w + x) / 8 < w * h / 8,
        w * h % 8 == 0,
{
    let n = y * w + x;
    lemma_mul_inequality(y, h - 1, w);
    lemma_mul_is_distributive_sub_other_way(w, h, 1);
    lemma_mul_is_commutative(w, h);
    lemma_mul_nonnegative(y, w);
    assert(0 <= n < w * h);
    lemma_fundamental_div_mod(w, 8);
    assert(y * w == 8 * (y * (w / 8))) by (nonlinear_arith)
        requires
            w == 8 * (w / 8),
    ;
    lemma_mod_multiples_vanish(y * (w / 8), x, 8);
    assert(w * h == 8 * ((w / 8) * h)) by (nonlinear_arith)
        requires
            w == 8 * (w / 8),
    ;
    lemma_mod_multiples_vanish((w / 8) * h, 0, 8);
    let wh = w * h;
    lemma_div_pos_is_pos(n, 8);
    lemma_div_is_ordered(n, wh - 1, 8);
    lemma_fundamental_div_mod(wh, 8);
    lemma_fundamental_div_mod_converse(wh - 1, 8, wh / 8 - 1, 7);
}

/// Distinct in-range pixels occupy distinct linear positions.
proof fn lemma_pos_injective(w: int, x1: int, y1: int, x2: int, y2: int)
    requires
        0 <= x1 < w,
        0 <= x2 < w,
        0 <= y1,
        0 <= y2,
        y1 * w + x1 == y2 * w + x2,
    ensures
        x1 == x2,
        y1 == y2,
{
    let n = y1 * w + x1;
    assert(n == w * y1 + x1) by (nonlinear_arith)
        requires
            n == y1 * w + x1,
    ;
    assert(n == w * y2 + x2) by (nonlinear_arith)
        requires
            n == y2 * w + x2,
    ;
    lemma_fundamental_div_mod_converse(n, w, y1, x1);
    lemma_fundamental_div_mod_converse(n, w, y2, x2);
}

/// A byte vector of the given length with every entry equal to `value`.
fn filled_bytes(len: usize, value: u8) -> (r: Vec<u8>)
    ensures
        r@.len() == len,
        forall|i: int| 0 <= i < len ==> r@[i] == value,
{
    let mut out: Vec<u8> = Vec::new();
    let mut i: usize = 0;
    while i < len
        invariant
            i <= len,
            out@.len() == i,
            forall|j: int| 0 <= j < i ==> out@[j] == value,
        decreases len - i,
    {
        out.push(value);
        i += 1;
    }
    out
}

/// The packed-bit screen: a canvas mutated in place each frame, the packets
/// of the previously transmitted frame, and the injected transport handle.
pub struct Screen<T: HidAdapter> {
    width: usize,
    height: usize,
    data: Vec<u8>,
    prev_packets: Option<Vec<DataPacket>>,
    device: T,
}

impl<T: HidAdapter> View for Screen<T> {
    type V = ScreenModel;

    closed spec fn view(&self) -> ScreenModel {
        ScreenModel {
            width: self.width as int,
            height: self.height as int,
            data: self.data@,
            prev_packets: match self.prev_packets {
                Some(v) => Some(packet_views(v@)),
                None => None,
            },
        }
    }
}

impl<T: HidAdapter> Screen<T> {
    /// A blank screen of the given dimensions over the given transport.
    /// Every pixel starts off and no frame has been transmitted yet.
    pub fn from_device(device: T, width: usize, height: usize) -> (r: Result<
        Self,
        DriverError,
    >)
        requires
            width % 8 == 0,
            width * height <= usize::MAX,
            width * height / 8 <= 256 * (PAYLOAD_SIZE - 2),
        ensures
            ({
                &&& r matches Ok(s)
                &&& s@.wf()
                &&& s@.width == width
                &&& s@.height == height
                &&& s@.prev_packets is None
                &&& forall|i: int| 0 <= i < s@.data.len() ==> s@.data[i] == 0
            }),
    {
        let len = width * height / 8;
        Ok(Self { data: filled_bytes(len, 0), device, width, height, prev_packets: None })
    }

    /// The canvas width in pixels.
    pub fn width(&self) -> (r: usize)
        ensures
            r == self@.width,
    {
        self.width
    }

    /// The canvas height in pixels.
    pub fn height(&self) -> (r: usize)
        ensures
            r == self@.height,
    {
        self.height
    }

    /// Resets every pixel to off.
    pub fn clear(&mut self)
        requires
            old(self)@.wf(),
        ensures
            final(self)@.wf(),
            final(self)@.width == old(self)@.width,
            final(self)@.height == old(self)@.height,
            final(self)@.prev_packets == old(self)@.prev_packets,
            final(self)@.data.len() == old(self)@.data.len(),
            forall|i: int| 0 <= i < final(self)@.data.len() ==> final(self)@.data[i] == 0,
            forall|x: int, y: int|
                final(self)@.in_range(x, y) ==> !final(self)@.pixel(x, y),
    {
        let len = self.data.len();
        self.data = filled_bytes(len, 0);
        proof {
            assert forall|x: int, y: int| self@.in_range(x, y) implies !self@.pixel(x, y) by {
                lemma_pos(self@.width, self@.height, x, y);
                let j = (7 - (y * self@.width + x) % 8) as u8;
                assert(0u8 & (0x80u8 >> j) == 0) by (bit_vector);
            }
        }
    }

    /// Sets every pixel to on.
    pub fn fill_all(&mut self)
        requires
            old(self)@.wf(),
        ensures
            final(self)@.wf(),
            final(self)@.width == old(self)@.width,
            final(self)@.height == old(self)@.height,
            final(self)@.prev_packets == old(self)@.prev_packets,
            final(self)@.data.len() == old(self)@.data.len(),
            forall|i: int| 0 <= i < final(self)@.data.len() ==> final(self)@.data[i] == 0xFF,
            forall|x: int, y: int| final(self)@.in_range(x, y) ==> final(self)@.pixel(x, y),
    {
        let len = self.data.len();
        self.data = filled_bytes(len, 0xFF);
        proof {
            assert forall|x: int, y: int| self@.in_range(x, y) implies self@.pixel(x, y) by {
                lemma_pos(self@.width, self@.height, x, y);
                let j = (7 - (y * self@.width + x) % 8) as u8;
                assert(j < 8 ==> 0xFFu8 & (0x80u8 >> j) != 0) by (bit_vector);
            }
        }
    }

    /// Reads the pixel at `(x, y)`.
    pub fn get_pixel(&self, x: usize, y: usize) -> (r: bool)
        requires
            self@.wf(),
            x < self@.width,
            y < self@.height,
        ensures
            r == self@.pixel(x as int, y as int),
    {
        proof {
            lemma_pos(self@.width, self@.height, x as int, y as int);
        }
        let byte_index = (y * self.width + x) / 8;
        let bit_index: u8 = 7 - ((x % 8) as u8);
        let byte = self.data[byte_index];
        get_bit_at_index(byte, bit_index)
    }

    /// Writes the pixel at `(x, y)`; a coordinate off the canvas is a silent
    /// no-op (out-of-range draws never error and never wrap).
    pub fn set_pixel(&mut self, x: isize, y: isize, enabled: bool)
        requires
            old(self)@.wf(),
        ensures
            final(self)@.wf(),
            final(self)@.width == old(self)@.width,
            final(self)@.height == old(self)@.height,
            final(self)@.prev_packets == old(self)@.prev_packets,
            old(self)@.in_range(x as int, y as int) ==> {
                &&& final(self)@.data == old(self)@.data.update(
                    old(self)@.byte_index(x as int, y as int),
                    with_bit(
                        old(self)@.data[old(self)@.byte_index(x as int, y as int)],
                        old(self)@.bit_index(x as int),
                        enabled,
                    ),
                )
                &&& final(self)@.grid() == old(self)@.grid().update(
                    y as int * old(self)@.width + x as int,
                    enabled,
                )
            },
            !old(self)@.in_range(x as int, y as int) ==> final(self)@ == old(self)@,
    {
        if x < 0 || y < 0 {
            return ;
        }
        let ux = x as usize;
        let uy = y as usize;
        if ux >= self.width || uy >= self.height {
            return ;
        }
        proof {
            lemma_pos(self@.width, self@.height, ux as int, uy as int);
        }
        let target_byte = (uy * self.width + ux) / 8;
        let target_bit: u8 = 7 - ((ux % 8) as u8);
        self.data[target_byte] = set_bit_at_index(self.data[target_byte], target_bit, enabled);
        proof {
            let w = old(self)@.width;
            let h = old(self)@.height;
            let n0 = uy as int * w + ux as int;
            let og = old(self)@.grid();
            assert forall|n: int| 0 <= n < w * h implies self@.grid()[n] == og.update(
                n0,
                enabled,
            )[n] by {
                lemma_div_pos_is_pos(n, 8);
                lemma_div_is_ordered(n, w * h - 1, 8);
                lemma_fundamental_div_mod(w * h, 8);
                lemma_fundamental_div_mod_converse(w * h - 1, 8, w * h / 8 - 1, 7);
                let j = (7 - n % 8) as u8;
                assert(j < 8);
                if n / 8 == n0 / 8 {
                    lemma_fundamental_div_mod(n, 8);
                    lemma_fundamental_div_mod(n0, 8);
                    lemma_with_bit(old(self)@.data[n0 / 8], (7 - n0 % 8) as u8, enabled, j);
                }
            }
            assert(self@.grid() =~= og.update(n0, enabled));
        }
    }

    /// Fills the half-open rectangle `[min_x, max_x) x [min_y, max_y)` with
    /// `enabled`; parts of the rectangle off the canvas are silently clipped.
    pub fn paint_region(&mut self, min_x: isize, min_y: isize, max_x: isize, max_y: isize, enabled: bool)
        requires
            old(self)@.wf(),
        ensures
            final(self)@.wf(),
            final(self)@.width == old(self)@.width,
            final(self)@.height == old(self)@.height,
            final(self)@.prev_packets == old(self)@.prev_packets,
            final(self)@.data.len() == old(self)@.data.len(),
            forall|x2: int, y2: int|
                old(self)@.in_range(x2, y2) ==> final(self)@.pixel(x2, y2) == if min_x <= x2
                    < max_x && min_y <= y2 < max_y {
                    enabled
                } else {
                    old(self)@.pixel(x2, y2)
                },
    {
        let ghost pre = old(self)@;
        let mut x = min_x;
        while x < max_x
            invariant
                self@.wf(),
                self@.width == pre.width,
                self@.height == pre.height,
                self@.prev_packets == pre.prev_packets,
                self@.data.len() == pre.data.len(),
                min_x <= x,
                x <= max_x || x == min_x,
                forall|x2: int, y2: int|
                    pre.in_range(x2, y2) ==> self@.pixel(x2, y2) == if min_x <= x2 < x && min_y
                        <= y2 < max_y {
                        enabled
                    } else {
                        pre.pixel(x2, y2)
                    },
            decreases max_x - x,
        {
            let mut y = min_y;
            while y < max_y
                invariant
                    self@.wf(),
                    self@.width == pre.width,
                    self@.height == pre.height,
                    self@.prev_packets == pre.prev_packets,
                    self@.data.len() == pre.data.len(),
                    min_x <= x < max_x,
                    min_y <= y,
                    y <= max_y || y == min_y,
                    forall|x2: int, y2: int|
                        pre.in_range(x2, y2) ==> self@.pixel(x2, y2) == if (min_x <= x2 < x
                            && min_y <= y2 < max_y) || (x2 == x && min_y <= y2 < y) {
                            enabled
                        } else {
                            pre.pixel(x2, y2)
                        },
                decreases max_y - y,
            {
                let ghost before = self@;
                self.set_pixel(x, y, enabled);
                proof {
                    if before.in_range(x as int, y as int) {
                        assert forall|x2: int, y2: int|
                            pre.in_range(x2, y2) implies self@.pixel(x2, y2) == if (min_x <= x2
                            < x && min_y <= y2 < max_y) || (x2 == x && min_y <= y2 < y + 1) {
                            enabled
                        } else {
                            pre.pixel(x2, y2)
                        } by {
                            lemma_pos(pre.width, pre.height, x2, y2);
                            lemma_pos(pre.width, pre.height, x as int, y as int);
                            if y2 * pre.width + x2 == y as int * pre.width + x as int {
                                lemma_pos_injective(pre.width, x2, y2, x as int, y as int);
                            }
                        }
                    }
                }
                y += 1;
            }
            x += 1;
        }
    }
}

/// Payload of chunk `k` of the canvas bytes: the `PAYLOAD_SIZE - 2` bytes
/// starting at `k * (PAYLOAD_SIZE - 2)`, zero-padded past the end of the
/// real bytes.
pub open spec fn chunk_payload(data: Seq<u8>, k: int) -> Seq<u8> {
    Seq::new(
        (PAYLOAD_SIZE - 2) as nat,
        |j: int|
            if k * ((PAYLOAD_SIZE - 2) as int) + j < data.len() {
                data[k * ((PAYLOAD_SIZE - 2) as int) + j]
            } else {
                0u8
            },
    )
}

/// Number of packets that cover `len` canvas bytes: the payload size rounded
/// up, i.e. `ceil(len / (PAYLOAD_SIZE - 2))`.
pub open spec fn packet_count(len: int) -> int {
    (len + (PAYLOAD_SIZE - 2) - 1) / ((PAYLOAD_SIZE - 2) as int)
}

/// The packet sequence of a canvas: chunk `k`, in ascending order, under
/// index `k`.
pub open spec fn packets_model(data: Seq<u8>) -> Seq<PacketModel> {
    Seq::new(
        packet_count(data.len() as int) as nat,
        |k: int| PacketModel { index: k as u8, payload: chunk_payload(data, k) },
    )
}

/// The packets of the current frame that did not occur — index and payload
/// both equal — anywhere in the previous frame's packets, in order.
pub open spec fn diff_model(cur: Seq<PacketModel>, prev: Seq<PacketModel>) -> Seq<PacketModel>
    decreases cur.len(),
{
    if cur.len() == 0 {
        Seq::empty()
    } else {
        (if prev.contains(cur.first()) {
            Seq::empty()
        } else {
            seq![cur.first()]
        }) + diff_model(cur.drop_first(), prev)
    }
}

/// Packet count: a canvas with at least one byte needs enough packets to
/// cover every byte, the packet before the last one does not suffice, and
/// the last packet's payload is zero past the remaining real bytes.
pub proof fn lemma_packet_count(data: Seq<u8>)
    requires
        data.len() > 0,
    ensures
        packets_model(data).len() == packet_count(data.len() as int),
        packet_count(data.len() as int) * ((PAYLOAD_SIZE - 2) as int) >= data.len(),
        (packet_count(data.len() as int) - 1) * ((PAYLOAD_SIZE - 2) as int) < data.len(),
        forall|j: int|
            0 <= j < (PAYLOAD_SIZE - 2) && (packet_count(data.len() as int) - 1) * ((PAYLOAD_SIZE
                - 2) as int) + j >= data.len() ==> packets_model(data).last().payload[j] == 0,
{
    let p = (PAYLOAD_SIZE - 2) as int;
    let len = data.len() as int;
    let c = packet_count(len);
    lemma_fundamental_div_mod(len + p - 1, p);
    lemma_mod_division_less_than_divisor(len + p - 1, p);
    assert(p * c == c * p) by (nonlinear_arith);
    assert((c - 1) * p == c * p - p) by (nonlinear_arith);
    assert(c > 0) by (nonlinear_arith)
        requires
            p * c >= len,
            len > 0,
            p > 0,
    ;
    assert forall|j: int|
        0 <= j < (PAYLOAD_SIZE - 2) && (c - 1) * p + j >= len implies packets_model(
        data,
    ).last().payload[j] == 0 by {
        assert(packets_model(data).last() == packets_model(data)[c - 1]);
        assert(packets_model(data)[c - 1].payload == chunk_payload(data, c - 1));
        assert(chunk_payload(data, c - 1)[j] == 0);
    }
}

/// Packetization determinism: the packet sequence is a function of the
/// canvas bytes alone, so packetizing an unmodified canvas twice yields
/// identical sequences.
pub proof fn lemma_packets_deterministic(first: ScreenModel, second: ScreenModel)
    requires
        first.data == second.data,
    ensures
        packets_model(first.data) == packets_model(second.data),
{
}

/// Every packet of `cur` that occurs in `prev` is suppressed; when that is
/// all of them, the diff is empty.
pub proof fn lemma_diff_contained(cur: Seq<PacketModel>, prev: Seq<PacketModel>)
    requires
        forall|i: int| 0 <= i < cur.len() ==> prev.contains(#[trigger] cur[i]),
    ensures
        diff_model(cur, prev) == Seq::<PacketModel>::empty(),
    decreases cur.len(),
{
    if cur.len() > 0 {
        assert(prev.contains(cur[0]));
        assert forall|i: int| 0 <= i < cur.drop_first().len() implies prev.contains(
            #[trigger] cur.drop_first()[i],
        ) by {
            assert(cur.drop_first()[i] == cur[i + 1]);
        }
        lemma_diff_contained(cur.drop_first(), prev);
        assert(diff_model(cur, prev) =~= Seq::<PacketModel>::empty());
    }
}

/// Diff idempotence: diffing a frame against itself suppresses every packet,
/// so sending an unmodified canvas twice transmits nothing the second time.
pub proof fn lemma_diff_idempotent(packets: Seq<PacketModel>)
    ensures
        diff_model(packets, packets) == Seq::<PacketModel>::empty(),
{
    assert forall|i: int| 0 <= i < packets.len() implies packets.contains(
        #[trigger] packets[i],
    ) by {
        assert(packets[i] == packets[i]);
    }
    lemma_diff_contained(packets, packets);
}

/// When every packet of `cur` except the one at position `k` occurs in
/// `prev`, and that one does not, the diff is exactly that packet.
pub proof fn lemma_diff_single(cur: Seq<PacketModel>, prev: Seq<PacketModel>, k: int)
    requires
        0 <= k < cur.len(),
        forall|j: int| 0 <= j < cur.len() && j != k ==> prev.contains(#[trigger] cur[j]),
        !prev.contains(cur[k]),
    ensures
        diff_model(cur, prev) == seq![cur[k]],
    decreases cur.len(),
{
    let rest = cur.drop_first();
    if k == 0 {
        assert forall|i: int| 0 <= i < rest.len() implies prev.contains(#[trigger] rest[i]) by {
            assert(rest[i] == cur[i + 1]);
        }
        lemma_diff_contained(rest, prev);
        assert(diff_model(cur, prev) =~= seq![cur[0]]);
    } else {
        assert(prev.contains(cur[0]));
        assert forall|j: int| 0 <= j < rest.len() && j != k - 1 implies prev.contains(
            #[trigger] rest[j],
        ) by {
            assert(rest[j] == cur[j + 1]);
        }
        assert(rest[k - 1] == cur[k]);
        lemma_diff_single(rest, prev, k - 1);
        assert(diff_model(cur, prev) =~= seq![cur[k]]);
    }
}

/// Diff minimality: when two frames' canvases differ in exactly one byte,
/// lying in chunk `k`, diffing the new frame against the old retransmits
/// exactly the packet with index `k`.
pub proof fn lemma_diff_minimal(d1: Seq<u8>, d2: Seq<u8>, b: int)
    requires
        d1.len() == d2.len(),
        d1.len() <= 256 * (PAYLOAD_SIZE - 2),
        0 <= b < d1.len(),
        forall|i: int| 0 <= i < d1.len() && i != b ==> d1[i] == #[trigger] d2[i],
        d1[b] != d2[b],
    ensures
        diff_model(packets_model(d2), packets_model(d1)) == seq![
            packets_model(d2)[b / ((PAYLOAD_SIZE - 2) as int)],
        ],
{
    let p = (PAYLOAD_SIZE - 2) as int;
    let len = d1.len() as int;
    let k = b / p;
    let cur = packets_model(d2);
    let prev = packets_model(d1);
    let c = packet_count(len);
    lemma_div_pos_is_pos(b, p);
    lemma_fundamental_div_mod(b, p);
    lemma_mod_division_less_than_divisor(b, p);
    assert(p * k == k * p) by (nonlinear_arith);
    assert((k + 1) * p == k * p + p) by (nonlinear_arith);
    lemma_fundamental_div_mod_converse(b + p, p, k + 1, b % p);
    lemma_div_is_ordered(b + p, len + p - 1, p);
    assert(k < c);
    // the index byte is injective below 256 packets
    lemma_div_is_ordered(len + p - 1, 257 * p - 1, p);
    lemma_fundamental_div_mod_converse(257 * p - 1, p, 256, p - 1);
    assert(c <= 256);
    assert forall|jj: int| 0 <= jj < c && jj != k implies prev.contains(#[trigger] cur[jj]) by {
        assert forall|t: int| 0 <= t < p implies chunk_payload(d1, jj)[t] == chunk_payload(
            d2,
            jj,
        )[t] by {
            let pos = jj * p + t;
            if 0 <= pos < len {
                lemma_fundamental_div_mod_converse(pos, p, jj, t);
                assert(pos != b);
            }
        }
        assert(chunk_payload(d1, jj) =~= chunk_payload(d2, jj));
        assert(prev[jj] == cur[jj]);
    }
    assert(cur[k].payload[b % p] == d2[b]);
    assert(prev[k].payload[b % p] == d1[b]);
    assert(!prev.contains(cur[k])) by {
        if prev.contains(cur[k]) {
            let i = choose|i: int| 0 <= i < prev.len() && prev[i] == cur[k];
            assert(prev[i].index == i as u8);
            assert(cur[k].index == k as u8);
            assert(i == k);
            assert(prev[k].payload == cur[k].payload);
        }
    }
    lemma_diff_single(cur, prev, k);
}

/// True when a packet with the same index and payload occurs anywhere in
/// `previous`.
fn packet_known(previous: &Vec<DataPacket>, target: &DataPacket) -> (r: bool)
    ensures
        r == packet_views(previous@).contains(target@),
{
    let mut i: usize = 0;
    while i < previous.len()
        invariant
            i <= previous@.len(),
            forall|j: int| 0 <= j < i ==> packet_views(previous@)[j] != target@,
        decreases previous@.len() - i,
    {
        if previous[i] == *target {
            proof {
                assert(packet_views(previous@)[i as int] == target@);
            }
            return true;
        }
        i += 1;
    }
    proof {
        assert forall|j: int|
            0 <= j < packet_views(previous@).len() implies packet_views(previous@)[j]
            != target@ by {}
    }
    false
}

/// Removes from `current` every packet that occurred, unchanged, anywhere in
/// `previous`; the survivors keep their ascending index order.
pub fn packets_to_send(current: Vec<DataPacket>, previous: &Vec<DataPacket>) -> (r: Vec<
    DataPacket,
>)
    ensures
        packet_views(r@) == diff_model(packet_views(current@), packet_views(previous@)),
{
    let ghost cur0 = packet_views(current@);
    let ghost prevv = packet_views(previous@);
    let mut rest = current;
    let mut out: Vec<DataPacket> = Vec::new();
    while rest.len() > 0
        invariant
            prevv == packet_views(previous@),
            diff_model(cur0, prevv) == packet_views(out@) + diff_model(
                packet_views(rest@),
                prevv,
            ),
        decreases rest@.len(),
    {
        let ghost rv = packet_views(rest@);
        let ghost ov = packet_views(out@);
        let head = rest.remove(0);
        proof {
            assert(packet_views(rest@) =~= rv.drop_first());
            assert(rv.first() == head@);
        }
        let keep = !packet_known(previous, &head);
        if keep {
            out.push(head);
            proof {
                assert(packet_views(out@) =~= ov + seq![head@]);
                assert(ov + (seq![head@] + diff_model(rv.drop_first(), prevv)) =~= (ov + seq![
                    head@,
                ]) + diff_model(rv.drop_first(), prevv));
            }
        } else {
            proof {
                assert(ov + (Seq::<PacketModel>::empty() + diff_model(rv.drop_first(), prevv))
                    =~= ov + diff_model(rv.drop_first(), prevv));
            }
        }
    }
    proof {
        assert(packet_views(rest@).len() == 0);
        assert(diff_model(packet_views(rest@), prevv) =~= Seq::<PacketModel>::empty());
        assert(packet_views(out@) + Seq::<PacketModel>::empty() =~= packet_views(out@));
    }
    out
}

impl<T: HidAdapter> Screen<T> {
    /// Splits the canvas bytes into consecutive chunks of `PAYLOAD_SIZE - 2`
    /// bytes, the final chunk zero-padded, each chunk becoming the packet
    /// with its 0-based position as index.  Pure: the canvas is unchanged,
    /// and the result is a function of the canvas bytes alone.
    pub fn to_packets(&self) -> (r: Vec<DataPacket>)
        requires
            self@.wf(),
        ensures
            packet_views(r@) == packets_model(self@.data),
            forall|i: int| 0 <= i < r@.len() ==> (#[trigger] r@[i]).wf(),
    {
        let payload_len = PAYLOAD_SIZE - 2;
        let mut out: Vec<DataPacket> = Vec::new();
        let mut k: usize = 0;
        let mut pos: usize = 0;
        while pos < self.data.len()
            invariant
                self@.wf(),
                payload_len == PAYLOAD_SIZE - 2,
                pos == k * (payload_len as int),
                k == 0 || pos - payload_len < self@.data.len(),
                out@.len() == k,
                forall|i: int|
                    0 <= i < k ==> (#[trigger] out@[i])@ == (PacketModel {
                        index: i as u8,
                        payload: chunk_payload(self@.data, i),
                    }),
                forall|i: int| 0 <= i < k ==> (#[trigger] out@[i]).wf(),
            decreases self@.data.len() + payload_len - pos,
        {
            proof {
                assert(k as int * (payload_len as int) < 256 * (payload_len as int));
                assert(k < 256) by (nonlinear_arith)
                    requires
                        k as int * (payload_len as int) < 256 * (payload_len as int),
                        payload_len > 0,
                        k >= 0,
                ;
            }
            let mut payload: Vec<u8> = Vec::new();
            let mut j: usize = 0;
            while j < payload_len
                invariant
                    self@.wf(),
                    payload_len == PAYLOAD_SIZE - 2,
                    j <= payload_len,
                    pos == k * (payload_len as int),
                    pos < self@.data.len(),
                    payload@.len() == j,
                    forall|jj: int|
                        0 <= jj < j ==> payload@[jj] == chunk_payload(self@.data, k as int)[jj],
                decreases payload_len - j,
            {
                if pos + j < self.data.len() {
                    let byte = self.data[pos + j];
                    payload.push(byte);
                } else {
                    payload.push(0);
                }
                j += 1;
            }
            proof {
                assert(payload@ =~= chunk_payload(self@.data, k as int));
            }
            out.push(DataPacket::new(k as u8, payload));
            proof {
                assert((k as int + 1) * (payload_len as int) == k as int * (payload_len as int)
                    + payload_len) by (nonlinear_arith);
            }
            k += 1;
            pos += payload_len;
        }
        proof {
            let len = self@.data.len() as int;
            let p = (PAYLOAD_SIZE - 2) as int;
            lemma_fundamental_div_mod_converse(len + p - 1, p, k as int, len + p - 1 - k as int
                * p);
            assert(out@.len() == packet_count(len));
            assert(packet_views(out@) =~= packets_model(self@.data));
        }
        out
    }

    /// One frame's transmission: packetizes the canvas, suppresses every
    /// packet already present in the previously transmitted frame, writes
    /// the survivors in ascending index order (a failed write aborts the
    /// rest of the frame), and retains the full current packet sequence —
    /// not the filtered subset — as the new baseline, whether or not every
    /// write succeeded.
    ///
    /// Only a transport write can fail, so a frame whose diff is empty —
    /// in particular, resending an unmodified canvas, or any empty canvas —
    /// always succeeds.
    pub fn send(&mut self) -> (r: Result<(), DriverError>)
        requires
            old(self)@.wf(),
        ensures
            final(self)@.wf(),
            final(self)@.width == old(self)@.width,
            final(self)@.height == old(self)@.height,
            final(self)@.data == old(self)@.data,
            final(self)@.prev_packets == Some(packets_model(old(self)@.data)),
            (old(self)@.prev_packets matches Some(prev) && diff_model(
                packets_model(old(self)@.data),
                prev,
            ).len() == 0) ==> r is Ok,
            old(self)@.prev_packets is None && packets_model(old(self)@.data).len() == 0 ==> r
                is Ok,
            old(self)@.prev_packets == Some(packets_model(old(self)@.data)) ==> r is Ok,
            old(self)@.data.len() == 0 ==> r is Ok,
    {
        let ghost pre = old(self)@;
        let current = self.to_packets();
        let outgoing = match &self.prev_packets {
            Some(prev) => packets_to_send(current, prev),
            None => current,
        };
        let baseline = self.to_packets();
        self.prev_packets = Some(baseline);
        let mut i: usize = 0;
        while i < outgoing.len()
            invariant
                pre == old(self)@,
                self@.wf(),
                self@.width == pre.width,
                self@.height == pre.height,
                self@.data == pre.data,
                self@.prev_packets == Some(packets_model(pre.data)),
                i <= outgoing@.len(),
                pre.prev_packets matches Some(prev) ==> packet_views(outgoing@) == diff_model(
                    packets_model(pre.data),
                    prev,
                ),
                pre.prev_packets is None ==> packet_views(outgoing@) == packets_model(pre.data),
            decreases outgoing@.len() - i,
        {
            match outgoing[i].send(&self.device) {
                Ok(_) => {},
                Err(e) => {
                    proof {
                        // a write happened, so the diff was not empty
                        assert(outgoing@.len() == packet_views(outgoing@).len());
                        lemma_diff_idempotent(packets_model(pre.data));
                    }
                    return Err(e);
                },
            }
            i += 1;
        }
        Ok(())
    }
}

/// Bit round-trip: after writing one in-range pixel, reading it back gives
/// the value written, and every other pixel keeps its old value.
pub proof fn lemma_pixel_roundtrip(
    before: ScreenModel,
    after: ScreenModel,
    x: int,
    y: int,
    v: bool,
)
    requires
        before.wf(),
        before.in_range(x, y),
        after.width == before.width,
        after.height == before.height,
        after.grid() == before.grid().update(y * before.width + x, v),
    ensures
        after.pixel(x, y) == v,
        forall|x2: int, y2: int|
            before.in_range(x2, y2) && (x2 != x || y2 != y) ==> after.pixel(x2, y2)
                == before.pixel(x2, y2),
{
    let w = before.width;
    lemma_pos(w, before.height, x, y);
    assert forall|x2: int, y2: int|
        before.in_range(x2, y2) && (x2 != x || y2 != y) implies after.pixel(x2, y2)
        == before.pixel(x2, y2) by {
        lemma_pos(w, before.height, x2, y2);
        if y2 * w + x2 == y * w + x {
            lemma_pos_injective(w, x2, y2, x, y);
        }
    }
}

} // verus!
