//! Capability interfaces for keyed, incremental hashing.
//!
//! A `HashContext` absorbs bytes and is consumed once to yield a digest; a
//! `HashFunction` builds fresh contexts from its key material; a `Hash` value
//! knows how to feed its canonical byte representation into any context.

use vstd::prelude::*;

verus! {

/// An incremental hashing context: absorbs byte streams, then is consumed
/// exactly once to produce a digest.
///
/// The contract makes chunking invariance structural: `update` appends to
/// `absorbed()` and leaves the digest map `result_for` untouched, and `finish`
/// returns `result_for` applied to the total absorbed stream.  The digest
/// therefore depends only on the concatenation of all updates, never on how
/// the caller split the input into calls.
pub trait HashContext: Sized {
    type Result;

    /// Well-formedness of the context's internal state.
    spec fn wf(&self) -> bool;

    /// All bytes absorbed so far, in order.
    spec fn absorbed(&self) -> Seq<u8>;

    /// The digest this context would produce if its total absorbed stream
    /// were `msg`.  Fixed at construction; `update` never changes it.
    spec fn result_for(&self, msg: Seq<u8>) -> Self::Result;

    /// Absorb an arbitrary byte sequence.  Never fails; any chunking of a
    /// logically contiguous input yields the same final digest.
    fn update(&mut self, bytes: &[u8])
        requires
            old(self).wf(),
        ensures
            final(self).wf(),
            final(self).absorbed() == old(self).absorbed() + bytes@,
            forall|msg: Seq<u8>| #[trigger] final(self).result_for(msg)
                == old(self).result_for(msg),
    ;

    /// Consume the context and return the digest of everything absorbed.
    /// Taking `self` by value makes use-after-finish a compile-time error.
    fn finish(self) -> (r: Self::Result)
        requires
            self.wf(),
        ensures
            r == self.result_for(self.absorbed()),
    ;
}

/// A factory for hash contexts, holding the key material.  Immutable and
/// reusable across unlimited digests; each context it creates is single-use.
pub trait HashFunction: Sized {
    type Context: HashContext;

    /// The hash function computed by this factory, as a mathematical map
    /// from byte streams to digests.
    spec fn digest_of(&self, msg: Seq<u8>) -> <Self::Context as HashContext>::Result;

    /// A fresh, independent context seeded from the factory's keys.
    /// Identical factories produce identical initial states on every call.
    fn init(&self) -> (ctx: Self::Context)
        ensures
            ctx.wf(),
            ctx.absorbed() == Seq::<u8>::empty(),
            forall|msg: Seq<u8>| #[trigger] ctx.result_for(msg) == self.digest_of(msg),
    ;

    /// One-shot hashing, equal by contract to `init`/`update`/`finish`:
    /// the default body is built from exactly those three calls.
    fn digest(&self, bytes: &[u8]) -> (r: <Self::Context as HashContext>::Result)
        ensures
            r == self.digest_of(bytes@),
    {
        let mut ctx = self.init();
        ctx.update(bytes);
        proof {
            assert(ctx.absorbed() =~= bytes@);
        }
        ctx.finish()
    }

    /// One-shot hashing of a single byte, equal by contract to `digest`
    /// on the one-element sequence holding that byte.
    fn digest_u8(&self, b: u8) -> (r: <Self::Context as HashContext>::Result)
        ensures
            r == self.digest_of(seq![b]),
    {
        let buf: Vec<u8> = vec![b];
        proof {
            assert(buf@ =~= seq![b]);
        }
        self.digest(buf.as_slice())
    }
}

/// A value that can feed its canonical byte representation into any context.
pub trait Hash {
    /// The canonical byte representation this value hashes as.
    spec fn bytes_of(&self) -> Seq<u8>;

    /// Feed the value's bytes into the supplied context.
    fn hash<H: HashContext>(&self, ctx: &mut H)
        requires
            old(ctx).wf(),
        ensures
            final(ctx).wf(),
            final(ctx).absorbed() == old(ctx).absorbed() + self.bytes_of(),
            forall|msg: Seq<u8>| #[trigger] final(ctx).result_for(msg)
                == old(ctx).result_for(msg),
    ;

    /// Convenience combinator equal to `init`; `hash`; `finish`.
    fn digest<F: HashFunction>(&self, f: &F) -> (r: <<F as HashFunction>::Context as HashContext>::Result)
        ensures
            r == f.digest_of(self.bytes_of()),
    {
        let mut ctx = f.init();
        self.hash(&mut ctx);
        proof {
            assert(ctx.absorbed() =~= self.bytes_of());
        }
        ctx.finish()
    }
}

/// A single byte hashes as the one-element sequence holding itself.
impl Hash for u8 {
    open spec fn bytes_of(&self) -> Seq<u8> {
        seq![*self]
    }

    fn hash<H: HashContext>(&self, ctx: &mut H) {
        let buf: Vec<u8> = vec![*self];
        ctx.update(buf.as_slice());
    }
}

/// A byte slice hashes as itself, verbatim.
impl Hash for [u8] {
    open spec fn bytes_of(&self) -> Seq<u8> {
        self@
    }

    fn hash<H: HashContext>(&self, ctx: &mut H) {
        ctx.update(self);
    }

    fn digest<F: HashFunction>(&self, f: &F) -> (r: <<F as HashFunction>::Context as HashContext>::Result) {
        f.digest(self)
    }
}

/// Chunking invariance, made executable: feeding any ordered partition of an
/// input chunk by chunk yields the digest of the concatenation of the chunks.
pub fn digest_chunks<F: HashFunction>(f: &F, chunks: &Vec<Vec<u8>>) -> (r: <F::Context as HashContext>::Result)
    ensures
        r == f.digest_of(chunks@.map_values(|c: Vec<u8>| c@).flatten()),
{
    let ghost views = chunks@.map_values(|c: Vec<u8>| c@);
    let mut ctx = f.init();
    let mut i: usize = 0;
    while i < chunks.len()
        invariant
            i <= chunks.len(),
            ctx.wf(),
            views == chunks@.map_values(|c: Vec<u8>| c@),
            ctx.absorbed() == views.take(i as int).flatten(),
            forall|msg: Seq<u8>| #[trigger] ctx.result_for(msg) == f.digest_of(msg),
        decreases chunks.len() - i,
    {
        ctx.update(chunks[i].as_slice());
        proof {
            assert(views.take(i as int).push(views[i as int]) =~= views.take(i + 1));
            views.take(i as int).lemma_flatten_push(views[i as int]);
        }
        i = i + 1;
    }
    proof {
        assert(views.take(chunks@.len() as int) =~= views);
    }
    ctx.finish()
}

} // verus!
