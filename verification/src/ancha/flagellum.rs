//! AnchaFlagellum: a key and a value stored one behind the other.
//!
//! Layout: `[key][padding][value]`
use core::marker::PhantomData;
use vstd::prelude::*;

use super::{
    cell_at, from_base, lemma_align_divides, lemma_align_up, lemma_cell_from_base,
    lemma_cell_unchanged, lemma_valid_align_max, lemma_write_cell, max_blob, spec_align_up,
    spec_max, unchanged_outside, Anchize, Assoc, BuildCursor, Cell, Deanchize, Layout, Reserve,
    StaticAnchize, StaticDeanchize,
};

verus! {

/// A key-value pair in a blob.
pub struct AnchaFlagellum<'a, K, V> {
    pub blob: &'a [u8],
    /// Position of the key.
    pub at: usize,
    pub _phantom: PhantomData<(K, V)>,
}

/// The fixed-size head of a pair is its key; the value follows it.
impl<'a, K: Layout, V: Layout> Layout for AnchaFlagellum<'a, K, V> {
    /// The key, padded to the pair's alignment.
    open spec fn spec_size() -> nat {
        spec_align_up(K::spec_size() as int, spec_max(K::spec_align(), V::spec_align()) as int) as nat
    }

    open spec fn spec_align() -> nat {
        spec_max(K::spec_align(), V::spec_align())
    }

    fn size() -> (r: usize) {
        proof {
            K::lemma_layout();
            V::lemma_layout();
        }
        let a = if K::align() >= V::align() { K::align() } else { V::align() };
        super::align_up(K::size(), a)
    }

    fn align() -> (r: usize) {
        proof {
            K::lemma_layout();
            V::lemma_layout();
        }
        if K::align() >= V::align() { K::align() } else { V::align() }
    }

    proof fn lemma_layout() {
        K::lemma_layout();
        V::lemma_layout();
        let a = spec_max(K::spec_align(), V::spec_align()) as int;
        super::lemma_align_up(K::spec_size() as int, a);
        super::lemma_valid_align_max(K::spec_align(), V::spec_align());
        assert(super::valid_align(a as nat));
        assert(0x1000int % a == 0) by {
            if a == 1 {
                assert(0x1000int % 1int == 0);
            } else if a == 2 {
                assert(0x1000int % 2int == 0);
            } else if a == 4 {
                assert(0x1000int % 4int == 0);
            } else if a == 8 {
                assert(0x1000int % 8int == 0);
            } else {
                assert(a == 16);
                assert(0x1000int % 16int == 0);
            }
        }
        super::lemma_align_up_le(K::spec_size() as int, 0x1000, a);
    }
}

/// Position of the value of a flagellum whose key is at `at`.
pub open spec fn flagellum_val<K: Layout, V: Layout>(at: int) -> int {
    spec_align_up(at + K::spec_size(), V::spec_align() as int)
}

impl<'a, K: Cell, V: Layout> Assoc for AnchaFlagellum<'a, K, V> {
    type Key = K;

    open spec fn spec_key_at(at: int) -> int {
        at
    }

    open spec fn spec_val_at(at: int) -> int {
        flagellum_val::<K, V>(at)
    }

    fn key_at(at: usize) -> (r: usize) {
        at
    }

    fn val_at(at: usize) -> (r: usize) {
        proof {
            K::lemma_layout();
            V::lemma_layout();
        }
        super::align_up(at + K::size(), V::align())
    }

    proof fn lemma_assoc(at: int) {
        K::lemma_layout();
        V::lemma_layout();
        lemma_align_up(at + K::spec_size(), V::spec_align() as int);
    }
}

impl<'a, K: Cell, V: Layout> AnchaFlagellum<'a, K, V> {
    /// The pair whose key is at `at`.
    pub fn from_blob(blob: &'a [u8], at: usize) -> (r: Self)
        ensures
            r.blob@ == blob@,
            r.at == at,
    {
        AnchaFlagellum { blob, at, _phantom: PhantomData }
    }

    /// The key.
    pub fn key(&self) -> (r: K)
        requires
            self.at + K::spec_size() <= self.blob@.len(),
        ensures
            r == cell_at::<K>(self.blob@, self.at as int),
    {
        K::read_cell(self.blob, self.at)
    }

    /// Position of the value.
    pub fn val(&self) -> (r: usize)
        requires
            self.at <= max_blob(),
        ensures
            r == flagellum_val::<K, V>(self.at as int),
    {
        <Self as Assoc>::val_at(self.at)
    }
}

/// Anchization of a pair into an `AnchaFlagellum`.
pub struct FlagellumAnchizeFromTuple<KeyAnchize, ValueAnchize> {
    pub key_ancha: KeyAnchize,
    pub value_ancha: ValueAnchize,
}

impl<KeyAnchize, ValueAnchize> FlagellumAnchizeFromTuple<KeyAnchize, ValueAnchize> {
    pub fn new(key_ancha: KeyAnchize, value_ancha: ValueAnchize) -> (r: Self)
        ensures
            r.key_ancha == key_ancha,
            r.value_ancha == value_ancha,
    {
        FlagellumAnchizeFromTuple { key_ancha, value_ancha }
    }
}

impl<KeyAnchize: Default, ValueAnchize: Default> Default for FlagellumAnchizeFromTuple<
    KeyAnchize,
    ValueAnchize,
> {
    fn default() -> Self {
        FlagellumAnchizeFromTuple { key_ancha: KeyAnchize::default(), value_ancha: ValueAnchize::default() }
    }
}

/// Position of the key of a flagellum laid out at `pos`.
pub open spec fn flagellum_key<K: Layout, V: Layout>(pos: int) -> int {
    spec_align_up(pos, spec_max(K::spec_align(), V::spec_align()) as int)
}

pub proof fn lemma_flagellum_key<K: Layout, V: Layout>(pos: int)
    requires
        0 <= pos,
    ensures
        pos <= flagellum_key::<K, V>(pos) <= pos + 16,
        spec_align_up(flagellum_key::<K, V>(pos), K::spec_align() as int) == flagellum_key::<K, V>(pos),
        spec_align_up(flagellum_key::<K, V>(pos), spec_max(K::spec_align(), V::spec_align()) as int)
            == flagellum_key::<K, V>(pos),
{
    K::lemma_layout();
    V::lemma_layout();
    lemma_valid_align_max(K::spec_align(), V::spec_align());
    lemma_align_up(pos, spec_max(K::spec_align(), V::spec_align()) as int);
    lemma_align_divides(flagellum_key::<K, V>(pos), K::spec_align(), V::spec_align());
    super::lemma_align_up_aligned(
        flagellum_key::<K, V>(pos),
        spec_max(K::spec_align(), V::spec_align()) as int,
    );
}

impl<KeyAnchize: StaticAnchize, ValueAnchize: Anchize<Context = KeyAnchize::Context>> Anchize for FlagellumAnchizeFromTuple<
    KeyAnchize,
    ValueAnchize,
> {
    type Origin = (KeyAnchize::Origin, ValueAnchize::Origin);

    type Context = KeyAnchize::Context;

    type Ancha = AnchaFlagellum<'static, KeyAnchize::Ancha, ValueAnchize::Ancha>;

    open spec fn spec_accepts(&self, origin: Self::Origin, context: Self::Context) -> bool {
        self.key_ancha.spec_accepts(origin.0, context) && self.value_ancha.spec_accepts(
            origin.1,
            context,
        )
    }

    open spec fn spec_end(&self, origin: Self::Origin, pos: int) -> int {
        self.value_ancha.spec_end(
            origin.1,
            flagellum_key::<KeyAnchize::Ancha, ValueAnchize::Ancha>(pos) + KeyAnchize::Ancha::spec_size(),
        )
    }

    open spec fn spec_holds(
        &self,
        origin: Self::Origin,
        context: Self::Context,
        bytes: Seq<u8>,
        pos: int,
    ) -> bool {
        let at = flagellum_key::<KeyAnchize::Ancha, ValueAnchize::Ancha>(pos);
        &&& at + KeyAnchize::Ancha::spec_size() <= bytes.len()
        &&& cell_at::<KeyAnchize::Ancha>(bytes, at) == self.key_ancha.spec_anchize_static(
            origin.0,
            context,
        )
        &&& self.value_ancha.spec_holds(origin.1, context, bytes, at + KeyAnchize::Ancha::spec_size())
    }

    proof fn lemma_align_start(
        &self,
        origin: Self::Origin,
        context: Self::Context,
        bytes: Seq<u8>,
        pos: int,
    ) {
        KeyAnchize::Ancha::lemma_layout();
        ValueAnchize::Ancha::lemma_layout();
        super::lemma_align_idem(
            pos,
            spec_max(KeyAnchize::Ancha::spec_align(), ValueAnchize::Ancha::spec_align()) as int,
        );
    }

    proof fn lemma_end(&self, origin: Self::Origin, pos: int) {
        let at = flagellum_key::<KeyAnchize::Ancha, ValueAnchize::Ancha>(pos);
        lemma_flagellum_key::<KeyAnchize::Ancha, ValueAnchize::Ancha>(pos);
        self.value_ancha.lemma_end(origin.1, at + KeyAnchize::Ancha::spec_size());
    }

    proof fn lemma_frame(
        &self,
        origin: Self::Origin,
        context: Self::Context,
        b1: Seq<u8>,
        b2: Seq<u8>,
        pos: int,
    ) {
        let at = flagellum_key::<KeyAnchize::Ancha, ValueAnchize::Ancha>(pos);
        let v = at + KeyAnchize::Ancha::spec_size();
        let end = self.spec_end(origin, pos);
        lemma_flagellum_key::<KeyAnchize::Ancha, ValueAnchize::Ancha>(pos);
        self.value_ancha.lemma_end(origin.1, v);
        super::lemma_subrange_within(b1, b2, pos, end, at, v);
        super::lemma_subrange_within(b1, b2, pos, end, v, end);
        self.value_ancha.lemma_frame(origin.1, context, b1, b2, v);
    }

    fn reserve(&self, origin: &Self::Origin, context: &Self::Context, sz: &mut Reserve) {
        let ghost pos = old(sz).0 as int;
        proof {
            lemma_flagellum_key::<KeyAnchize::Ancha, ValueAnchize::Ancha>(pos);
            KeyAnchize::Ancha::lemma_layout();
            self.value_ancha.lemma_end(
                origin.1,
                flagellum_key::<KeyAnchize::Ancha, ValueAnchize::Ancha>(pos) + KeyAnchize::Ancha::spec_size(),
            );
        }
        sz.add::<Self::Ancha>(0);
        sz.add::<KeyAnchize::Ancha>(1);
        self.value_ancha.reserve(&origin.1, context, sz);
    }

    fn anchize<After>(
        &self,
        origin: &Self::Origin,
        context: &Self::Context,
        buf: &mut Vec<u8>,
        cur: BuildCursor<Self::Ancha>,
    ) -> (r: BuildCursor<After>) {
        let ghost pos = cur.cur as int;
        let ghost base = cur.buf as int;
        let ghost at = flagellum_key::<KeyAnchize::Ancha, ValueAnchize::Ancha>(pos);
        let ghost v = at + KeyAnchize::Ancha::spec_size();
        proof {
            lemma_flagellum_key::<KeyAnchize::Ancha, ValueAnchize::Ancha>(pos);
            KeyAnchize::Ancha::lemma_layout();
            ValueAnchize::Ancha::lemma_layout();
            self.value_ancha.lemma_end(origin.1, v);
            self.value_ancha.lemma_align_start(origin.1, *context, Seq::empty(), v);
        }
        let cur: BuildCursor<Self::Ancha> = cur.align();
        let p = cur.buf + cur.cur;
        let mut k = KeyAnchize::Ancha::read_cell(buf.as_slice(), p);
        self.key_ancha.anchize_static(&origin.0, context, &mut k);
        k.write_cell(buf, p);
        let ghost b1 = buf@;
        proof {
            lemma_write_cell::<KeyAnchize::Ancha>(old(buf)@, b1, p as int, k);
        }
        let kcur: BuildCursor<KeyAnchize::Ancha> = cur.behind(0);
        let vcur: BuildCursor<ValueAnchize::Ancha> = kcur.behind(1);
        proof {
            self.value_ancha.lemma_align_start(origin.1, *context, from_base(buf@, base), v);
        }
        let r = self.value_ancha.anchize(&origin.1, context, buf, vcur);
        proof {
            self.value_ancha.lemma_align_start(origin.1, *context, from_base(buf@, base), v);
            lemma_cell_unchanged::<KeyAnchize::Ancha>(b1, buf@, base + at);
            lemma_cell_from_base::<KeyAnchize::Ancha>(buf@, base, at);
            ValueAnchize::Ancha::lemma_layout();
            lemma_align_up(v, ValueAnchize::Ancha::spec_align() as int);
        }
        r
    }
}

/// Deanchization of an `AnchaFlagellum`.
pub struct FlagellumDeanchize<KeyDeanchize, ValueDeanchize> {
    pub key_deancha: KeyDeanchize,
    pub value_deancha: ValueDeanchize,
}

impl<KeyDeanchize, ValueDeanchize> FlagellumDeanchize<KeyDeanchize, ValueDeanchize> {
    pub fn new(key_deancha: KeyDeanchize, value_deancha: ValueDeanchize) -> (r: Self)
        ensures
            r.key_deancha == key_deancha,
            r.value_deancha == value_deancha,
    {
        FlagellumDeanchize { key_deancha, value_deancha }
    }
}

impl<KeyDeanchize: Default, ValueDeanchize: Default> Default for FlagellumDeanchize<
    KeyDeanchize,
    ValueDeanchize,
> {
    fn default() -> Self {
        FlagellumDeanchize { key_deancha: KeyDeanchize::default(), value_deancha: ValueDeanchize::default() }
    }
}

impl<KeyDeanchize: StaticDeanchize, ValueDeanchize: Deanchize> Deanchize for FlagellumDeanchize<
    KeyDeanchize,
    ValueDeanchize,
> {
    type Ancha = AnchaFlagellum<'static, KeyDeanchize::Ancha, ValueDeanchize::Ancha>;

    open spec fn spec_walk(&self, bytes: Seq<u8>, pos: int) -> Option<int> {
        let at = flagellum_key::<KeyDeanchize::Ancha, ValueDeanchize::Ancha>(pos);
        if at + KeyDeanchize::Ancha::spec_size() > bytes.len() {
            None
        } else {
            self.value_deancha.spec_walk(
                bytes,
                flagellum_val::<KeyDeanchize::Ancha, ValueDeanchize::Ancha>(at),
            )
        }
    }

    proof fn lemma_walk(&self, bytes: Seq<u8>, pos: int) {
        let at = flagellum_key::<KeyDeanchize::Ancha, ValueDeanchize::Ancha>(pos);
        lemma_flagellum_key::<KeyDeanchize::Ancha, ValueDeanchize::Ancha>(pos);
        KeyDeanchize::Ancha::lemma_layout();
        ValueDeanchize::Ancha::lemma_layout();
        lemma_align_up(at + KeyDeanchize::Ancha::spec_size(), ValueDeanchize::Ancha::spec_align() as int);
        self.value_deancha.lemma_walk(bytes, flagellum_val::<KeyDeanchize::Ancha, ValueDeanchize::Ancha>(at));
    }

    fn deanchize<After>(&self, buf: &[u8], cur: BuildCursor<Self::Ancha>) -> (r: BuildCursor<After>) {
        let ghost pos = cur.cur as int;
        proof {
            lemma_flagellum_key::<KeyDeanchize::Ancha, ValueDeanchize::Ancha>(pos);
            KeyDeanchize::Ancha::lemma_layout();
        }
        let cur: BuildCursor<Self::Ancha> = cur.align();
        let kcur: BuildCursor<KeyDeanchize::Ancha> = cur.behind(0);
        let vcur: BuildCursor<ValueDeanchize::Ancha> = kcur.behind(1);
        self.value_deancha.deanchize(buf, vcur)
    }
}

/// Deanchization walks exactly over an anchized flagellum, given that it
/// does so over each value.
pub proof fn lemma_flagellum_walk<
    KA: StaticAnchize,
    VA: Anchize<Context = KA::Context>,
    KD: StaticDeanchize<Ancha = KA::Ancha>,
    VD: Deanchize<Ancha = VA::Ancha>,
>(
    anchize: FlagellumAnchizeFromTuple<KA, VA>,
    deanchize: FlagellumDeanchize<KD, VD>,
    origin: (KA::Origin, VA::Origin),
    ctx: KA::Context,
    bytes: Seq<u8>,
    pos: int,
)
    requires
        0 <= pos,
        anchize.spec_holds(origin, ctx, bytes, pos),
        forall|o: VA::Origin, p: int|
            0 <= p && #[trigger] anchize.value_ancha.spec_holds(o, ctx, bytes, p)
                ==> deanchize.value_deancha.spec_walk(bytes, p) == Some(anchize.value_ancha.spec_end(o, p)),
    ensures
        deanchize.spec_walk(bytes, pos) == Some(anchize.spec_end(origin, pos)),
{
    let at = flagellum_key::<KA::Ancha, VA::Ancha>(pos);
    lemma_flagellum_key::<KA::Ancha, VA::Ancha>(pos);
    KA::Ancha::lemma_layout();
    VA::Ancha::lemma_layout();
    let v = at + KA::Ancha::spec_size();
    lemma_align_up(v, VA::Ancha::spec_align() as int);
    anchize.value_ancha.lemma_align_start(origin.1, ctx, bytes, v);
}

} // verus!
