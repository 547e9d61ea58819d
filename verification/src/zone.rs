use vstd::prelude::*;

use crate::text::{join, join_strs, str_views};

verus! {

/// Whether bit `i` of `x` is set.
pub open spec fn bit(x: u32, i: u32) -> bool {
    (x >> i) & 1u32 == 1u32
}

/// A set of zones, one bit per zone. Bits 0 to 7 are the predefined zones,
/// bits 8 to 31 are free for custom zones.
#[derive(Clone, Copy, PartialEq, Eq, Structural, Hash)]
pub struct LogZone(pub u32);

impl View for LogZone {
    type V = Set<nat>;

    /// The positions of the bits that are set.
    open spec fn view(&self) -> Set<nat> {
        Set::new(|i: nat| i < 32 && bit(self.0, i as u32))
    }
}

/// A bit of `a & b` is set exactly where it is set in both.
pub proof fn lemma_bit_and(a: u32, b: u32, i: u32)
    requires
        i < 32,
    ensures
        bit(a & b, i) == (bit(a, i) && bit(b, i)),
{
    assert(bit(a & b, i) == (bit(a, i) && bit(b, i))) by (bit_vector)
        requires
            i < 32,
    ;
}

/// A bit of `a | b` is set exactly where it is set in either.
pub proof fn lemma_bit_or(a: u32, b: u32, i: u32)
    requires
        i < 32,
    ensures
        bit(a | b, i) == (bit(a, i) || bit(b, i)),
{
    assert(bit(a | b, i) == (bit(a, i) || bit(b, i))) by (bit_vector)
        requires
            i < 32,
    ;
}

/// `1 << m` has bit `m` and no other.
pub proof fn lemma_bit_single(m: u32, i: u32)
    requires
        m < 32,
        i < 32,
    ensures
        bit(1u32 << m, i) == (i == m),
{
    assert(bit(1u32 << m, i) == (i == m)) by (bit_vector)
        requires
            m < 32,
            i < 32,
    ;
}

/// Zero has no bit set; a non-zero word has one.
pub proof fn lemma_zero_iff_no_bit(x: u32)
    ensures
        x == 0 <==> (forall|i: u32| i < 32 ==> !#[trigger] bit(x, i)),
{
    if x == 0 {
        assert forall|i: u32| i < 32 implies !#[trigger] bit(x, i) by {
            assert(x == 0 ==> !bit(x, i)) by (bit_vector);
        }
    } else {
        assert(bit(x, 0) || bit(x, 1) || bit(x, 2) || bit(x, 3) || bit(x, 4) || bit(x, 5) || bit(
            x,
            6,
        ) || bit(x, 7) || bit(x, 8) || bit(x, 9) || bit(x, 10) || bit(x, 11) || bit(x, 12) || bit(
            x,
            13,
        ) || bit(x, 14) || bit(x, 15) || bit(x, 16) || bit(x, 17) || bit(x, 18) || bit(x, 19)
            || bit(x, 20) || bit(x, 21) || bit(x, 22) || bit(x, 23) || bit(x, 24) || bit(x, 25)
            || bit(x, 26) || bit(x, 27) || bit(x, 28) || bit(x, 29) || bit(x, 30) || bit(x, 31))
            by (bit_vector)
            requires
                x != 0,
        ;
    }
}

/// Two words with the same bits are equal.
pub proof fn lemma_bits_equal(a: u32, b: u32)
    requires
        forall|i: u32| i < 32 ==> #[trigger] bit(a, i) == bit(b, i),
    ensures
        a == b,
{
    let x = a ^ b;
    assert forall|i: u32| i < 32 implies !#[trigger] bit(x, i) by {
        assert(bit(a, i) == bit(b, i));
        assert(i < 32 && bit(a, i) == bit(b, i) ==> !bit(a ^ b, i)) by (bit_vector);
    }
    lemma_zero_iff_no_bit(x);
    assert(a ^ b == 0 ==> a == b) by (bit_vector);
}

/// `a & b` is non-zero exactly when the two share a set bit.
pub proof fn lemma_and_nonzero(a: u32, b: u32)
    ensures
        (a & b != 0) <==> exists|i: u32| i < 32 && #[trigger] bit(a, i) && bit(b, i),
{
    lemma_zero_iff_no_bit(a & b);
    if a & b != 0 {
        let i = choose|i: u32| i < 32 && #[trigger] bit(a & b, i);
        lemma_bit_and(a, b, i);
    }
    if exists|i: u32| i < 32 && #[trigger] bit(a, i) && bit(b, i) {
        let i = choose|i: u32| i < 32 && #[trigger] bit(a, i) && bit(b, i);
        lemma_bit_and(a, b, i);
    }
}

/// The zone of `a.0 | b.0` is the union of the zones of `a` and `b`.
pub proof fn lemma_view_union(a: LogZone, b: LogZone)
    ensures
        LogZone(a.0 | b.0)@ == a@ + b@,
{
    assert forall|n: nat| #[trigger] LogZone(a.0 | b.0)@.contains(n) == (a@ + b@).contains(n) by {
        if n < 32 {
            lemma_bit_or(a.0, b.0, n as u32);
        }
    }
    assert(LogZone(a.0 | b.0)@ =~= a@ + b@);
}

/// The one-bit words of the bits of `x` below `n`, lowest bit first.
pub open spec fn singles(x: u32, n: nat) -> Seq<u32>
    decreases n,
{
    if n == 0 {
        Seq::empty()
    } else {
        let p = singles(x, (n - 1) as nat);
        if bit(x, (n - 1) as u32) {
            p.push(1u32 << ((n - 1) as u32))
        } else {
            p
        }
    }
}

/// `v` is `1 << j` for a bit `j` below `n` that is set in `x`.
pub open spec fn is_single_of(v: u32, x: u32, n: nat) -> bool {
    exists|j: u32| j < n && v == 1u32 << j && #[trigger] bit(x, j)
}

/// The bitwise or of all the words of `s`.
pub open spec fn or_all(s: Seq<u32>) -> u32
    decreases s.len(),
{
    if s.len() == 0 {
        0
    } else {
        or_all(s.drop_last()) | s.last()
    }
}

/// The raw bits of each zone of `zs`.
pub open spec fn raw_bits(zs: Seq<LogZone>) -> Seq<u32> {
    zs.map_values(|z: LogZone| z.0)
}

proof fn lemma_shift_lt(a: u32, b: u32)
    requires
        a < b < 32,
    ensures
        1u32 << a < 1u32 << b,
{
    assert(a < b < 32 ==> 1u32 << a < 1u32 << b) by (bit_vector);
}

proof fn lemma_singles(x: u32, n: nat)
    requires
        n <= 32,
    ensures
        forall|k: int| 0 <= k < singles(x, n).len() ==> is_single_of(#[trigger] singles(x, n)[k], x, n),
        forall|j: u32| j < n && #[trigger] bit(x, j) ==> singles(x, n).contains(1u32 << j),
        forall|a: int, b: int|
            0 <= a < b < singles(x, n).len() ==> #[trigger] singles(x, n)[a] < #[trigger] singles(x, n)[b],
        forall|j: u32| j < 32 ==> #[trigger] bit(or_all(singles(x, n)), j) == (j < n && bit(x, j)),
    decreases n,
{
    if n == 0 {
        assert forall|j: u32| j < 32 implies !#[trigger] bit(or_all(singles(x, n)), j) by {
            assert(!bit(0, j)) by (bit_vector);
        }
    } else {
        let m = (n - 1) as nat;
        lemma_singles(x, m);
        let p = singles(x, m);
        let t = (n - 1) as u32;
        if bit(x, t) {
            let v = 1u32 << t;
            let s = p.push(v);
            assert(s == singles(x, n));
            assert forall|k: int| 0 <= k < s.len() implies is_single_of(#[trigger] s[k], x, n) by {
                if k < p.len() {
                    assert(is_single_of(p[k], x, m));
                    let j = choose|j: u32| j < m && p[k] == 1u32 << j && #[trigger] bit(x, j);
                    assert(j < n && s[k] == 1u32 << j && bit(x, j));
                } else {
                    assert(t < n && s[k] == 1u32 << t && bit(x, t));
                }
            }
            assert forall|j: u32| j < n && #[trigger] bit(x, j) implies s.contains(1u32 << j) by {
                if j < m {
                    let k = choose|k: int| 0 <= k < p.len() && p[k] == 1u32 << j;
                    assert(s[k] == 1u32 << j);
                } else {
                    assert(s[s.len() - 1] == 1u32 << j);
                }
            }
            assert forall|a: int, b: int| 0 <= a < b < s.len() implies #[trigger] s[a] < #[trigger] s[b] by {
                if b < p.len() {
                    assert(p[a] < p[b]);
                } else {
                    assert(is_single_of(p[a], x, m));
                    let j = choose|j: u32| j < m && p[a] == 1u32 << j && #[trigger] bit(x, j);
                    lemma_shift_lt(j, t);
                }
            }
            assert(s.drop_last() == p);
            assert forall|j: u32| j < 32 implies #[trigger] bit(or_all(s), j) == (j < n && bit(x, j)) by {
                lemma_bit_or(or_all(p), v, j);
                lemma_bit_single(t, j);
            }
        } else {
            assert(p == singles(x, n));
            assert forall|k: int| 0 <= k < p.len() implies is_single_of(#[trigger] p[k], x, n) by {
                assert(is_single_of(p[k], x, m));
                let j = choose|j: u32| j < m && p[k] == 1u32 << j && #[trigger] bit(x, j);
                assert(j < n && p[k] == 1u32 << j && bit(x, j));
            }
            assert forall|j: u32| j < 32 implies #[trigger] bit(or_all(p), j) == (j < n && bit(x, j)) by {
                if j == t {
                    assert(!bit(x, j));
                }
            }
        }
    }
}

/// What `iter_single` yields decomposes the zone: each item is a one-bit zone
/// inside it, every bit of it is yielded, lowest bit first (so never twice),
/// and the items or-ed together give the zone back.
pub proof fn lemma_iter_single_decomposes(z: LogZone)
    ensures
        forall|k: int|
            0 <= k < singles(z.0, 32).len() ==> is_single_of(#[trigger] singles(z.0, 32)[k], z.0, 32),
        forall|j: u32| j < 32 && #[trigger] bit(z.0, j) ==> singles(z.0, 32).contains(1u32 << j),
        forall|a: int, b: int|
            0 <= a < b < singles(z.0, 32).len() ==> #[trigger] singles(z.0, 32)[a]
                < #[trigger] singles(z.0, 32)[b],
        or_all(singles(z.0, 32)) == z.0,
{
    lemma_singles(z.0, 32);
    lemma_bits_equal(or_all(singles(z.0, 32)), z.0);
}

/// The name of a predefined one-bit zone, `CUSTOM` for any other value.
pub open spec fn zone_name(x: u32) -> Seq<char> {
    if x == 1 {
        "BASIC"@
    } else if x == 2 {
        "RENDER"@
    } else if x == 4 {
        "MATRIX"@
    } else if x == 8 {
        "SHADER"@
    } else if x == 16 {
        "CHUNK"@
    } else if x == 32 {
        "PHYSICS"@
    } else if x == 64 {
        "AUDIO"@
    } else if x == 128 {
        "NET"@
    } else {
        "CUSTOM"@
    }
}

/// `[name]` when `x` shares a bit with `mask`, nothing otherwise.
pub open spec fn label_if(x: u32, mask: u32, name: Seq<char>) -> Seq<Seq<char>> {
    if x & mask != 0 {
        seq![name]
    } else {
        Seq::empty()
    }
}

/// The names of the predefined zones that `x` holds, in bit order, then
/// `CUSTOM` when it holds any of the bits 8 to 31.
pub open spec fn zone_labels(x: u32) -> Seq<Seq<char>> {
    label_if(x, 1, "BASIC"@) + label_if(x, 2, "RENDER"@) + label_if(x, 4, "MATRIX"@) + label_if(
        x,
        8,
        "SHADER"@,
    ) + label_if(x, 16, "CHUNK"@) + label_if(x, 32, "PHYSICS"@) + label_if(x, 64, "AUDIO"@)
        + label_if(x, 128, "NET"@) + label_if(x, 0xFFFF_FF00, "CUSTOM"@)
}

/// How a zone is shown: `NONE`, `ALL`, or its labels joined by `|`.
pub open spec fn zone_text(x: u32) -> Seq<char> {
    if x == 0 {
        "NONE"@
    } else if x == u32::MAX {
        "ALL"@
    } else {
        join(zone_labels(x), "|"@)
    }
}

fn push_label(names: &mut Vec<&'static str>, x: u32, mask: u32, name: &'static str)
    ensures
        str_views(final(names)@) == str_views(old(names)@) + label_if(x, mask, name@),
{
    if x & mask != 0 {
        names.push(name);
        assert(str_views(names@) =~= str_views(old(names)@) + label_if(x, mask, name@));
    } else {
        assert(str_views(names@) =~= str_views(old(names)@) + label_if(x, mask, name@));
    }
}

/// Two zones share a bit exactly when their sets of bit positions meet.
pub proof fn lemma_meets(a: LogZone, b: LogZone)
    ensures
        (a.0 & b.0 != 0) == !a@.disjoint(b@),
{
    lemma_and_nonzero(a.0, b.0);
    if a.0 & b.0 != 0 {
        let i = choose|i: u32| i < 32 && #[trigger] bit(a.0, i) && bit(b.0, i);
        assert(a@.contains(i as nat) && b@.contains(i as nat));
    } else {
        assert forall|n: nat| a@.contains(n) implies !b@.contains(n) by {
            let i = n as u32;
            assert(bit(a.0, i));
        }
    }
}

/// The names of the zones of `s`.
pub open spec fn zone_names(s: Seq<u32>) -> Seq<Seq<char>> {
    s.map_values(|b: u32| zone_name(b))
}

proof fn lemma_names_step(x: u32, k: u32)
    requires
        k < 32,
    ensures
        zone_names(singles(x, (k + 1) as nat)) == zone_names(singles(x, k as nat)) + if bit(x, k) {
            seq![zone_name(1u32 << k)]
        } else {
            Seq::<Seq<char>>::empty()
        },
{
    assert(zone_names(singles(x, (k + 1) as nat)) =~= zone_names(singles(x, k as nat)) + if bit(
        x,
        k,
    ) {
        seq![zone_name(1u32 << k)]
    } else {
        Seq::<Seq<char>>::empty()
    });
}

proof fn lemma_label_step(x: u32, k: u32, mask: u32)
    requires
        k < 32,
        mask == 1u32 << k,
    ensures
        zone_names(singles(x, (k + 1) as nat)) == zone_names(singles(x, k as nat)) + label_if(
            x,
            mask,
            zone_name(mask),
        ),
{
    lemma_names_step(x, k);
    assert((x & mask != 0) == bit(x, k)) by (bit_vector)
        requires
            k < 32,
            mask == 1u32 << k,
    ;
}

/// The labels of a zone are the names of its predefined one-bit zones, in
/// the order `iter_single` yields them (lowest bit first), each present
/// exactly when its bit is set, then `CUSTOM` when any of the bits 8 to 31
/// is set.
pub proof fn lemma_labels_follow_bits(x: u32)
    ensures
        zone_labels(x) == zone_names(singles(x, 8)) + label_if(x, 0xFFFF_FF00, "CUSTOM"@),
{
    assert(1u32 << 0u32 == 1 && 1u32 << 1u32 == 2 && 1u32 << 2u32 == 4 && 1u32 << 3u32 == 8 && 1u32
        << 4u32 == 16 && 1u32 << 5u32 == 32 && 1u32 << 6u32 == 64 && 1u32 << 7u32 == 128)
        by (bit_vector);
    lemma_label_step(x, 0, 1);
    lemma_label_step(x, 1, 2);
    lemma_label_step(x, 2, 4);
    lemma_label_step(x, 3, 8);
    lemma_label_step(x, 4, 16);
    lemma_label_step(x, 5, 32);
    lemma_label_step(x, 6, 64);
    lemma_label_step(x, 7, 128);
    let l0 = label_if(x, 1, "BASIC"@);
    assert(zone_names(singles(x, 0)) =~= Seq::<Seq<char>>::empty());
    assert(zone_names(singles(x, 1)) =~= l0);
}

/// A predefined zone's name is among the labels of a zone exactly when the
/// zone has its bit.
pub proof fn lemma_label_present_iff_bit(x: u32, k: u32)
    requires
        k < 8,
    ensures
        zone_labels(x).contains(zone_name(1u32 << k)) == bit(x, k),
{
    lemma_labels_follow_bits(x);
    lemma_singles(x, 8);
    let v = 1u32 << k;
    let names = zone_names(singles(x, 8));
    let c = label_if(x, 0xFFFF_FF00, "CUSTOM"@);
    reveal_strlit("BASIC");
    reveal_strlit("RENDER");
    reveal_strlit("MATRIX");
    reveal_strlit("SHADER");
    reveal_strlit("CHUNK");
    reveal_strlit("PHYSICS");
    reveal_strlit("AUDIO");
    reveal_strlit("NET");
    reveal_strlit("CUSTOM");
    assert(k < 8 ==> (v == 1 || v == 2 || v == 4 || v == 8 || v == 16 || v == 32 || v == 64 || v
        == 128)) by (bit_vector)
        requires
            v == 1u32 << k,
    ;
    if bit(x, k) {
        assert(singles(x, 8).contains(v));
        let j = choose|j: int| 0 <= j < singles(x, 8).len() && singles(x, 8)[j] == v;
        assert((names + c)[j] == zone_name(v));
    } else {
        if zone_labels(x).contains(zone_name(v)) {
            let j = choose|j: int| 0 <= j < (names + c).len() && (names + c)[j] == zone_name(v);
            if j < names.len() {
                let w = singles(x, 8)[j];
                assert(is_single_of(w, x, 8));
                let m = choose|m: u32| m < 8 && w == 1u32 << m && #[trigger] bit(x, m);
                assert(zone_name(w) == zone_name(v));
                assert(m < 8 && k < 8 && m != k ==> 1u32 << m != 1u32 << k) by (bit_vector);
                assert(m < 8 ==> (w == 1 || w == 2 || w == 4 || w == 8 || w == 16 || w == 32 || w
                    == 64 || w == 128)) by (bit_vector)
                    requires
                        w == 1u32 << m,
                ;
                assert(zone_name(w)[0] != zone_name(v)[0] || zone_name(w).len() != zone_name(v).len() || w == v);
            } else {
                assert(c[j - names.len()] == "CUSTOM"@);
                assert("CUSTOM"@.len() == 6 && "CUSTOM"@[0] == 'C');
                assert(zone_name(v).len() != 6 || zone_name(v)[0] != 'C');
                assert(zone_name(v) != "CUSTOM"@);
            }
        }
    }
}

impl LogZone {
    /// No zone.
    #[allow(non_snake_case)]
    pub fn NONE() -> (z: LogZone)
        ensures
            z.0 == 0,
            z@ == Set::<nat>::empty(),
    {
        proof {
            lemma_zero_iff_no_bit(0);
            assert(LogZone(0)@ =~= Set::<nat>::empty());
        }
        LogZone(0)
    }

    /// Init, startup, configuration.
    #[allow(non_snake_case)]
    pub fn BASIC() -> (z: LogZone)
        ensures
            z.0 == 1,
    {
        LogZone(1)
    }

    /// Pipeline, draw calls, frames.
    #[allow(non_snake_case)]
    pub fn RENDER() -> (z: LogZone)
        ensures
            z.0 == 2,
    {
        LogZone(2)
    }

    /// Matrices, NDC, camera.
    #[allow(non_snake_case)]
    pub fn MATRIX() -> (z: LogZone)
        ensures
            z.0 == 4,
    {
        LogZone(4)
    }

    /// Uniforms, bindings, shaders.
    #[allow(non_snake_case)]
    pub fn SHADER() -> (z: LogZone)
        ensures
            z.0 == 8,
    {
        LogZone(8)
    }

    /// Meshing, voxels, world generation.
    #[allow(non_snake_case)]
    pub fn CHUNK() -> (z: LogZone)
        ensures
            z.0 == 16,
    {
        LogZone(16)
    }

    /// Collisions, raycasts.
    #[allow(non_snake_case)]
    pub fn PHYSICS() -> (z: LogZone)
        ensures
            z.0 == 32,
    {
        LogZone(32)
    }

    /// Audio, sounds.
    #[allow(non_snake_case)]
    pub fn AUDIO() -> (z: LogZone)
        ensures
            z.0 == 64,
    {
        LogZone(64)
    }

    /// Network, serialization.
    #[allow(non_snake_case)]
    pub fn NET() -> (z: LogZone)
        ensures
            z.0 == 128,
    {
        LogZone(128)
    }

    /// Every zone.
    #[allow(non_snake_case)]
    pub fn ALL() -> (z: LogZone)
        ensures
            z.0 == u32::MAX,
            z@ == Set::new(|i: nat| i < 32),
    {
        let z = LogZone(u32::MAX);
        proof {
            assert forall|i: nat| i < 32 implies #[trigger] bit(u32::MAX, i as u32) by {
                let j = i as u32;
                assert(j < 32 ==> bit(0xFFFF_FFFFu32, j)) by (bit_vector);
            }
            assert(z@ =~= Set::new(|i: nat| i < 32));
        }
        z
    }

    /// A zone from raw bits, for the bits 8 to 31 that no predefined zone uses.
    pub fn custom(bit: u32) -> (z: LogZone)
        ensures
            z.0 == bit,
    {
        LogZone(bit)
    }

    /// Whether the two zones share at least one bit.
    pub fn contains(self, other: LogZone) -> (r: bool)
        ensures
            r == (self.0 & other.0 != 0),
            r == !self@.disjoint(other@),
    {
        proof {
            lemma_meets(self, other);
        }
        (self.0 & other.0) != 0
    }

    /// The name of a one-bit predefined zone; `CUSTOM` for anything else.
    pub fn name(self) -> (r: &'static str)
        ensures
            r@ == zone_name(self.0),
    {
        let x = self.0;
        if x == 1 {
            "BASIC"
        } else if x == 2 {
            "RENDER"
        } else if x == 4 {
            "MATRIX"
        } else if x == 8 {
            "SHADER"
        } else if x == 16 {
            "CHUNK"
        } else if x == 32 {
            "PHYSICS"
        } else if x == 64 {
            "AUDIO"
        } else if x == 128 {
            "NET"
        } else {
            "CUSTOM"
        }
    }

    /// The zone as text: `NONE`, `ALL`, or the names of its zones joined by
    /// `|` (such as `BASIC|MATRIX`), with `CUSTOM` for the bits 8 to 31.
    pub fn to_debug_string(self) -> (r: String)
        ensures
            r@ == zone_text(self.0),
            self.0 == 0 ==> r@ == "NONE"@,
            self.0 == u32::MAX ==> r@ == "ALL"@,
            self.0 != 0 && self.0 != u32::MAX ==> r@ == join(
                zone_names(singles(self.0, 8)) + label_if(self.0, 0xFFFF_FF00, "CUSTOM"@),
                "|"@,
            ),
    {
        proof {
            lemma_labels_follow_bits(self.0);
        }
        let x = self.0;
        if x == 0 {
            return String::from_str("NONE");
        }
        if x == u32::MAX {
            return String::from_str("ALL");
        }
        let mut names: Vec<&'static str> = Vec::new();
        push_label(&mut names, x, 1, "BASIC");
        push_label(&mut names, x, 2, "RENDER");
        push_label(&mut names, x, 4, "MATRIX");
        push_label(&mut names, x, 8, "SHADER");
        push_label(&mut names, x, 16, "CHUNK");
        push_label(&mut names, x, 32, "PHYSICS");
        push_label(&mut names, x, 64, "AUDIO");
        push_label(&mut names, x, 128, "NET");
        push_label(&mut names, x, 0xFFFF_FF00, "CUSTOM");
        assert(str_views(names@) =~= zone_labels(x));
        join_strs(&names, "|")
    }

    /// The one-bit zones of this zone, lowest bit first.
    pub fn iter_single(self) -> (r: Vec<LogZone>)
        ensures
            raw_bits(r@) == singles(self.0, 32),
    {
        let mut r: Vec<LogZone> = Vec::new();
        let mut b: u32 = 0;
        while b < 32
            invariant
                b <= 32,
                raw_bits(r@) == singles(self.0, b as nat),
            decreases 32 - b,
        {
            let x = self.0;
            let m = 1u32 << b;
            proof {
                assert(b < 32 ==> ((x & (1u32 << b) != 0) == bit(x, b))) by (bit_vector);
            }
            if x & m != 0 {
                r.push(LogZone(m));
                assert(raw_bits(r@) =~= singles(self.0, (b + 1) as nat));
            } else {
                assert(raw_bits(r@) =~= singles(self.0, (b + 1) as nat));
            }
            b = b + 1;
        }
        r
    }
}

impl std::ops::BitOr for LogZone {
    type Output = LogZone;

    /// The union of the two zones.
    fn bitor(self, rhs: LogZone) -> (r: LogZone)
        ensures
            r.0 == self.0 | rhs.0,
            r@ == self@ + rhs@,
    {
        let r = LogZone(self.0 | rhs.0);
        proof {
            lemma_view_union(self, rhs);
        }
        r
    }
}

impl vstd::std_specs::ops::BitOrSpecImpl for LogZone {
    open spec fn obeys_bitor_spec() -> bool {
        true
    }

    open spec fn bitor_req(self, rhs: LogZone) -> bool {
        true
    }

    open spec fn bitor_spec(self, rhs: LogZone) -> LogZone {
        LogZone(self.0 | rhs.0)
    }
}

impl std::ops::BitOrAssign for LogZone {
    /// Adds the zones of `rhs`.
    fn bitor_assign(&mut self, rhs: LogZone)
        ensures
            final(self).0 == old(self).0 | rhs.0,
            final(self)@ == old(self)@ + rhs@,
    {
        proof {
            lemma_view_union(*self, rhs);
        }
        self.0 = self.0 | rhs.0;
    }
}

/// `contains` is symmetric, and distributes over `|`: a zone meets a union
/// exactly when it meets one of its parts.
pub proof fn lemma_contains_laws(a: LogZone, b: LogZone, c: LogZone)
    ensures
        (a.0 & b.0 != 0) == (b.0 & a.0 != 0),
        (a.0 & (b.0 | c.0) != 0) == ((a.0 & b.0 != 0) || (a.0 & c.0 != 0)),
{
    let x = a.0;
    let y = b.0;
    let z = c.0;
    assert((x & y != 0) == (y & x != 0)) by (bit_vector);
    assert((x & (y | z) != 0) == ((x & y != 0) || (x & z != 0))) by (bit_vector);
}

/// `ALL` meets every zone but `NONE`; `NONE` meets none.
pub proof fn lemma_all_and_none(a: LogZone)
    ensures
        (u32::MAX & a.0 != 0) == (a.0 != 0),
        (a.0 & u32::MAX != 0) == (a.0 != 0),
        0u32 & a.0 == 0,
        a.0 & 0u32 == 0,
{
    let x = a.0;
    assert((0xFFFF_FFFFu32 & x != 0) == (x != 0)) by (bit_vector);
    assert((x & 0xFFFF_FFFFu32 != 0) == (x != 0)) by (bit_vector);
    assert(0u32 & x == 0) by (bit_vector);
    assert(x & 0u32 == 0) by (bit_vector);
}

/// `|` on zones is commutative, associative and idempotent, with `NONE` as
/// its unit and `ALL` absorbing.
pub proof fn lemma_union_laws(a: LogZone, b: LogZone, c: LogZone)
    ensures
        a.0 | b.0 == b.0 | a.0,
        (a.0 | b.0) | c.0 == a.0 | (b.0 | c.0),
        a.0 | a.0 == a.0,
        a.0 | 0u32 == a.0,
        a.0 | u32::MAX == u32::MAX,
{
    let x = a.0;
    let y = b.0;
    let z = c.0;
    assert(x | y == y | x) by (bit_vector);
    assert((x | y) | z == x | (y | z)) by (bit_vector);
    assert(x | x == x) by (bit_vector);
    assert(x | 0u32 == x) by (bit_vector);
    assert(x | 0xFFFF_FFFFu32 == 0xFFFF_FFFFu32) by (bit_vector);
}

/// A custom zone over the bits 8 to 31 meets none of the predefined zones.
pub proof fn lemma_custom_apart(x: u32, p: u32)
    requires
        x & 0xFF == 0,
        p == 1 || p == 2 || p == 4 || p == 8 || p == 16 || p == 32 || p == 64 || p == 128,
    ensures
        x & p == 0,
{
    assert(x & 0xFF == 0 && (p == 1 || p == 2 || p == 4 || p == 8 || p == 16 || p == 32 || p
        == 64 || p == 128) ==> x & p == 0) by (bit_vector);
}

/// A predefined one-bit zone is shown by its name alone.
pub proof fn lemma_single_text_is_name(x: u32)
    requires
        x == 1 || x == 2 || x == 4 || x == 8 || x == 16 || x == 32 || x == 64 || x == 128,
    ensures
        zone_text(x) == zone_name(x),
{
    assert((x & 1 != 0) == (x == 1) && (x & 2 != 0) == (x == 2) && (x & 4 != 0) == (x == 4) && (x
        & 8 != 0) == (x == 8) && (x & 16 != 0) == (x == 16) && (x & 32 != 0) == (x == 32) && (x
        & 64 != 0) == (x == 64) && (x & 128 != 0) == (x == 128) && x & 0xFFFF_FF00 == 0)
        by (bit_vector)
        requires
            x == 1 || x == 2 || x == 4 || x == 8 || x == 16 || x == 32 || x == 64 || x == 128,
    ;
    assert(zone_labels(x) =~= seq![zone_name(x)]);
}

} // verus!
