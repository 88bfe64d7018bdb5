use vstd::arithmetic::div_mod::{
    lemma_div_pos_is_pos, lemma_fundamental_div_mod, lemma_mod_pos_bound, lemma_multiply_divide_lt,
};
use vstd::prelude::*;

verus! {

/// Channels of an RGBA8 texel.
pub const NUM_CHANNELS: u32 = 4;

/// Bytes per channel of an RGBA8 texel.
pub const BYTES_PER_CHANNEL: u32 = 1;

/// Edge length of the base shape and erosion texture.
pub const SHAPE_RESOLUTION: u32 = 128;

/// Edge length of the detail texture.
pub const DETAIL_RESOLUTION: u32 = 32;

/// Alpha value of a fully opaque texel.
pub const OPAQUE: u8 = 255;

/// A cube of `resolution`³ texels, `num_channels` channels of
/// `bytes_per_channel` bytes each, stored slice by slice.
pub struct TileableCloudNoise {
    pub data: Vec<u8>,
    pub resolution: u32,
    pub num_channels: u32,
    pub bytes_per_channel: u32,
}

impl TileableCloudNoise {
    /// The buffer holds exactly one sample per channel of every texel.
    pub open spec fn wf(&self) -> bool {
        self.data.len() == self.resolution * self.resolution * self.resolution * self.num_channels
            * self.bytes_per_channel
    }
}

/// The byte sequences held by a list of buffers.
pub open spec fn views(slices: Seq<Vec<u8>>) -> Seq<Seq<u8>> {
    slices.map_values(|v: Vec<u8>| v@)
}

proof fn lemma_views(slices: Seq<Vec<u8>>)
    ensures
        views(slices).len() == slices.len(),
        forall|i: int| 0 <= i < slices.len() ==> #[trigger] views(slices)[i] == slices[i]@,
{
}

/// `slices` are the `res` RGBA8 slices of a cube of edge `res`, and the
/// cube fits in memory.
pub open spec fn slices_fit(res: nat, slices: Seq<Seq<u8>>) -> bool {
    &&& slices.len() == res
    &&& forall|s: int| 0 <= s < slices.len() ==> (#[trigger] slices[s]).len() == slice_len(res)
    &&& res * slice_len(res) <= usize::MAX
}

/// `data` is the slices of `len` bytes each, one after the other.
pub open spec fn concatenates(data: Seq<u8>, slices: Seq<Seq<u8>>, len: nat) -> bool {
    &&& data.len() == slices.len() * len
    &&& forall|s: int, k: int|
        0 <= s < slices.len() && 0 <= k < len ==> data[s * len + k] == #[trigger] slices[s][k]
}

impl TileableCloudNoise {
    /// Joins the RGBA8 slices of a cube of edge `resolution` in index order.
    ///
    /// Returns `None` when there are not `resolution` slices, when a slice
    /// does not hold `resolution`² texels, or when the cube would not fit in
    /// memory.
    pub fn from_slices(resolution: u32, slices: Vec<Vec<u8>>) -> (texture: Option<Self>)
        ensures
            texture.is_some() <==> slices_fit(resolution as nat, views(slices@)),
            texture matches Some(tex) ==> {
                &&& tex.wf()
                &&& tex.resolution == resolution
                &&& tex.num_channels == NUM_CHANNELS
                &&& tex.bytes_per_channel == BYTES_PER_CHANNEL
                &&& concatenates(tex.data@, views(slices@), slice_len(resolution as nat))
            },
    {
        let ghost res = resolution as nat;
        let ghost fit = slices_fit(res, views(slices@));
        proof {
            lemma_views(slices@);
        }
        let n = resolution as usize;
        let area = match n.checked_mul(n) {
            Some(a) => a,
            None => {
                assert(!fit) by (nonlinear_arith)
                    requires
                        fit ==> res * (res * res * 4) <= usize::MAX,
                        res * res > usize::MAX,
                ;
                return None;
            },
        };
        let len = match area.checked_mul(4) {
            Some(l) => l,
            None => {
                assert(!fit) by (nonlinear_arith)
                    requires
                        fit ==> res * (res * res * 4) <= usize::MAX,
                        res * res * 4 > usize::MAX,
                ;
                return None;
            },
        };
        assert(len == slice_len(res));
        if n.checked_mul(len).is_none() || slices.len() != n {
            return None;
        }
        let mut s: usize = 0;
        while s < n
            invariant
                s <= n,
                res == n,
                len == slice_len(res),
                res * len <= usize::MAX,
                slices.len() == n,
                views(slices@).len() == slices.len(),
                forall|i: int| 0 <= i < slices.len() ==> #[trigger] views(slices@)[i] == slices@[i]@,
                forall|i: int| 0 <= i < s ==> (#[trigger] slices@[i]).len() == len,
            decreases n - s,
        {
            if slices[s].len() != len {
                assert(views(slices@)[s as int].len() != slice_len(res));
                return None;
            }
            s = s + 1;
        }
        assert(fit);
        let mut data: Vec<u8> = Vec::new();
        let mut s: usize = 0;
        while s < n
            invariant
                s <= n,
                slices_fit(res, views(slices@)),
                res == n,
                len == slice_len(res),
                slices.len() == n,
                views(slices@).len() == slices.len(),
                forall|i: int| 0 <= i < slices.len() ==> #[trigger] views(slices@)[i] == slices@[i]@,
                data.len() == s * len,
                forall|i: int, k: int|
                    0 <= i < s && 0 <= k < len ==> data@[i * len + k] == #[trigger] views(
                        slices@,
                    )[i][k],
            decreases n - s,
        {
            let slice = &slices[s];
            assert(slice@ == views(slices@)[s as int]);
            let mut k: usize = 0;
            while k < len
                invariant
                    s < n,
                    k <= len,
                    slices_fit(res, views(slices@)),
                    res == n,
                    len == slice_len(res),
                    slices.len() == n,
                    slice@ == views(slices@)[s as int],
                    slice.len() == len,
                    data.len() == s * len + k,
                    forall|i: int, k2: int|
                        ((0 <= i < s && 0 <= k2 < len) || (i == s && 0 <= k2 < k)) ==> data@[i
                            * len + k2] == #[trigger] views(slices@)[i][k2],
                decreases len - k,
            {
                assert(s * len + k < n * len) by (nonlinear_arith)
                    requires
                        s < n,
                        k < len,
                ;
                data.push(slice[k]);
                assert forall|i: int, k2: int|
                    ((0 <= i < s && 0 <= k2 < len) || (i == s && 0 <= k2 <= k)) implies data@[i
                    * len + k2] == #[trigger] views(slices@)[i][k2] by {
                    if i < s {
                        assert(i * len + k2 < s * len) by (nonlinear_arith)
                            requires
                                i < s,
                                k2 < len,
                        ;
                    }
                }
                k = k + 1;
            }
            assert(s * len + len == (s + 1) * len) by (nonlinear_arith);
            s = s + 1;
        }
        let texture = TileableCloudNoise {
            data,
            resolution,
            num_channels: NUM_CHANNELS,
            bytes_per_channel: BYTES_PER_CHANNEL,
        };
        assert(n * len == res * res * res * 4 * 1) by (nonlinear_arith)
            requires
                n == res,
                len == res * res * 4,
        ;
        Some(texture)
    }
}

/// Bytes in one RGBA8 slice of a cube of edge `res`.
pub open spec fn slice_len(res: nat) -> nat {
    res * res * 4
}

/// The `i`-th RGBA8 texel of a byte sequence.
pub open spec fn texel_at(bytes: Seq<u8>, i: int) -> (u8, u8, u8, u8) {
    (bytes[4 * i], bytes[4 * i + 1], bytes[4 * i + 2], bytes[4 * i + 3])
}

/// The texel at row `t`, column `r` of a slice of edge `res`.
pub open spec fn slice_texel(slice: Seq<u8>, res: nat, t: int, r: int) -> (u8, u8, u8, u8) {
    texel_at(slice, t * res + r)
}

/// Alpha channel of the `i`-th RGBA8 texel of a byte sequence.
pub open spec fn alpha_of(bytes: Seq<u8>, i: int) -> u8 {
    bytes[4 * i + 3]
}

/// Every texel of an RGBA8 byte sequence is fully opaque.
pub open spec fn opaque(bytes: Seq<u8>) -> bool {
    forall|i: int| 0 <= i < bytes.len() / 4 ==> #[trigger] alpha_of(bytes, i) == OPAQUE
}

/// Appends one texel, channel by channel.
fn push_texel(bytes: &mut Vec<u8>, texel: (u8, u8, u8, u8))
    ensures
        final(bytes)@ == old(bytes)@ + seq![texel.0, texel.1, texel.2, texel.3],
{
    bytes.push(texel.0);
    bytes.push(texel.1);
    bytes.push(texel.2);
    bytes.push(texel.3);
    assert(final(bytes)@ =~= old(bytes)@ + seq![texel.0, texel.1, texel.2, texel.3]);
}

/// Rows before `t` and the first `r` texels of row `t` come before texel (t, r).
proof fn lemma_texel_before(res: nat, t: int, r: int, t2: int, r2: int)
    requires
        0 <= t2,
        0 <= r2 < res,
        0 <= r,
        t2 < t || (t2 == t && r2 < r),
    ensures
        t2 * res + r2 < t * res + r,
{
    if t2 < t {
        assert(t2 * res + res <= t * res) by (nonlinear_arith)
            requires
                t2 < t,
        ;
    }
}

/// Evaluates the texels of slice `s` of a cube of edge `resolution`, row by
/// row, and lays them out as RGBA8 bytes.
///
/// Byte `4 * (t * resolution + r) + c` of the result is channel `c` of what
/// `texel` returned for `(s, t, r)`.
pub fn rgba_slice<F: Fn(u32, u32, u32) -> (u8, u8, u8, u8)>(
    resolution: u32,
    s: u32,
    texel: F,
) -> (slice: Vec<u8>)
    requires
        slice_len(resolution as nat) <= usize::MAX,
        forall|t: u32, r: u32| t < resolution && r < resolution ==> texel.requires((s, t, r)),
    ensures
        slice.len() == slice_len(resolution as nat),
        forall|t: u32, r: u32|
            t < resolution && r < resolution ==> texel.ensures(
                (s, t, r),
                #[trigger] slice_texel(slice@, resolution as nat, t as int, r as int),
            ),
{
    let ghost res = resolution as nat;
    let mut slice: Vec<u8> = Vec::new();
    let mut t: u32 = 0;
    while t < resolution
        invariant
            t <= resolution,
            res == resolution,
            slice.len() == t * res * 4,
            forall|t: u32, r: u32| t < resolution && r < resolution ==> texel.requires((s, t, r)),
            forall|t2: u32, r2: u32|
                t2 < t && r2 < resolution ==> texel.ensures(
                    (s, t2, r2),
                    #[trigger] slice_texel(slice@, res, t2 as int, r2 as int),
                ),
        decreases resolution - t,
    {
        let mut r: u32 = 0;
        while r < resolution
            invariant
                t < resolution,
                r <= resolution,
                res == resolution,
                slice.len() == (t * res + r) * 4,
                forall|t: u32, r: u32|
                    t < resolution && r < resolution ==> texel.requires((s, t, r)),
                forall|t2: u32, r2: u32|
                    ((t2 < t && r2 < resolution) || (t2 == t && r2 < r)) ==> texel.ensures(
                        (s, t2, r2),
                        #[trigger] slice_texel(slice@, res, t2 as int, r2 as int),
                    ),
            decreases resolution - r,
        {
            let ghost before = slice@;
            let value = texel(s, t, r);
            push_texel(&mut slice, value);
            assert forall|t2: u32, r2: u32|
                ((t2 < t && r2 < resolution) || (t2 == t && r2 <= r)) implies texel.ensures(
                (s, t2, r2),
                #[trigger] slice_texel(slice@, res, t2 as int, r2 as int),
            ) by {
                if t2 == t && r2 == r {
                    assert(slice_texel(slice@, res, t2 as int, r2 as int) == value);
                } else {
                    lemma_texel_before(res, t as int, r as int, t2 as int, r2 as int);
                    assert(slice_texel(slice@, res, t2 as int, r2 as int) == slice_texel(
                        before,
                        res,
                        t2 as int,
                        r2 as int,
                    ));
                }
            }
            r = r + 1;
        }
        assert((t * res + res) * 4 == (t + 1) * res * 4) by (nonlinear_arith);
        t = t + 1;
    }
    slice
}

/// Evaluates the colour of each texel of slice `s`, as `rgba_slice` does, and
/// stores every texel with full alpha.
pub fn rgb_opaque_slice<F: Fn(u32, u32, u32) -> (u8, u8, u8)>(
    resolution: u32,
    s: u32,
    texel: F,
) -> (slice: Vec<u8>)
    requires
        slice_len(resolution as nat) <= usize::MAX,
        forall|t: u32, r: u32| t < resolution && r < resolution ==> texel.requires((s, t, r)),
    ensures
        slice.len() == slice_len(resolution as nat),
        forall|t: u32, r: u32|
            t < resolution && r < resolution ==> {
                let v = #[trigger] slice_texel(slice@, resolution as nat, t as int, r as int);
                texel.ensures((s, t, r), (v.0, v.1, v.2)) && v.3 == OPAQUE
            },
        opaque(slice@),
{
    let colour = &texel;
    let with_alpha = |s: u32, t: u32, r: u32| -> (v: (u8, u8, u8, u8))
        requires
            colour.requires((s, t, r)),
        ensures
            colour.ensures((s, t, r), (v.0, v.1, v.2)),
            v.3 == OPAQUE,
        {
            let (red, green, blue) = colour(s, t, r);
            (red, green, blue, OPAQUE)
        };
    let slice = rgba_slice(resolution, s, with_alpha);
    let ghost res = resolution as nat;
    assert forall|i: int| 0 <= i < slice@.len() / 4 implies #[trigger] alpha_of(slice@, i)
        == OPAQUE by {
        let t = i / res as int;
        let r = i % res as int;
        assert(res > 0) by (nonlinear_arith)
            requires
                0 <= i < res * res,
        ;
        lemma_fundamental_div_mod(i, res as int);
        lemma_mod_pos_bound(i, res as int);
        lemma_div_pos_is_pos(i, res as int);
        lemma_multiply_divide_lt(i, res as int, res as int);
        assert(i == t * res + r) by (nonlinear_arith)
            requires
                i == res * t + r,
        ;
        assert(slice_texel(slice@, res, t, r).3 == alpha_of(slice@, i));
        assert(with_alpha.ensures((s, t as u32, r as u32), slice_texel(slice@, res, t, r)));
    }
    slice
}

/// Joining slices that are each fully opaque gives a fully opaque texture.
pub proof fn lemma_opaque_slices_assemble_opaque(data: Seq<u8>, slices: Seq<Seq<u8>>, len: nat)
    requires
        len % 4 == 0,
        concatenates(data, slices, len),
        forall|s: int|
            0 <= s < slices.len() ==> (#[trigger] slices[s]).len() == len && opaque(slices[s]),
    ensures
        opaque(data),
{
    let q = len / 4;
    assert forall|i: int| 0 <= i < data.len() / 4 implies #[trigger] alpha_of(data, i)
        == OPAQUE by {
        assert(q > 0 && i < slices.len() * q) by (nonlinear_arith)
            requires
                len == 4 * q,
                0 <= i < data.len() / 4,
                data.len() == slices.len() * len,
        ;
        let s = i / q as int;
        let m = i % q as int;
        lemma_fundamental_div_mod(i, q as int);
        lemma_mod_pos_bound(i, q as int);
        lemma_div_pos_is_pos(i, q as int);
        lemma_multiply_divide_lt(i, q as int, slices.len() as int);
        assert(s < slices.len());
        assert(4 * i + 3 == s * len + (4 * m + 3)) by (nonlinear_arith)
            requires
                i == q * s + m,
                len == 4 * q,
        ;
        assert(alpha_of(slices[s], m) == OPAQUE);
        assert(data[s * len + (4 * m + 3)] == slices[s][4 * m + 3]);
    }
}

} // verus!
