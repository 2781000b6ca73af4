use crate::protocol::{handshake_bytes, Mode, Session, SessionView, BLOCK_LEN};
use openssl::error::ErrorStack;
use openssl::symm::Crypter;
use vstd::prelude::*;

verus! {

/// The largest input that one update takes: openssl counts lengths in a C `int`.
pub const MAX_UPDATE_LEN: usize = 2147483647;

#[verifier::external_type_specification]
#[verifier::external_body]
pub struct ExCrypter(openssl::symm::Crypter);

#[verifier::external_type_specification]
#[verifier::external_body]
pub struct ExErrorStack(openssl::error::ErrorStack);

/// The handshake bytes (direction, key, IV) that a crypter was set up with.
pub uninterp spec fn crypter_setup(c: Crypter) -> Seq<u8>;

/// The bytes that a crypter has consumed since it was set up.
pub uninterp spec fn crypter_consumed(c: Crypter) -> Seq<u8>;

/// The byte that AES-128-CFB8, set up by `setup`, emits for the input byte `b`
/// once it has consumed `prior`.
pub uninterp spec fn cfb8_byte(setup: Seq<u8>, prior: Seq<u8>, b: u8) -> u8;

/// What a cipher set up by `setup` emits for `input` after it consumed `prior`:
/// one byte for each input byte, in order.
pub open spec fn cfb8_transform(setup: Seq<u8>, prior: Seq<u8>, input: Seq<u8>) -> Seq<u8> {
    Seq::new(input.len(), |i: int| cfb8_byte(setup, prior + input.take(i), input[i]))
}

/// Relies on openssl's `Crypter::new` with `Cipher::aes_128_cfb8()`: on success,
/// a context set up with this direction, key and IV that has consumed nothing.
#[verifier::external_body]
fn new_crypter(mode: Mode, key: &[u8], iv: &[u8]) -> (r: Result<Crypter, ErrorStack>)
    requires
        key@.len() == BLOCK_LEN,
        iv@.len() == BLOCK_LEN,
    ensures
        r matches Ok(c) ==> crypter_setup(c) == handshake_bytes(
            SessionView { mode, key: key@, iv: iv@ },
        ) && crypter_consumed(c) == Seq::<u8>::empty(),
{
    let m = match mode {
        Mode::Decrypt => openssl::symm::Mode::Decrypt,
        Mode::Encrypt => openssl::symm::Mode::Encrypt,
    };
    Crypter::new(openssl::symm::Cipher::aes_128_cfb8(), m, key, Some(iv))
}

/// Relies on openssl's `Crypter::update`, which feeds the whole input through
/// the cipher and returns how many bytes it wrote. The output buffer holds as
/// many bytes as the input: AES-128-CFB8 has a block size of 1, so `update` asks
/// for no more, and the count it returns may still be smaller. Where every input
/// byte came out, byte `i` is the CFB8 byte for input byte `i`, fixed by the
/// setup, everything consumed before it and the byte itself. `update` panics
/// when the input is longer than a C `int` holds.
#[verifier::external_body]
fn crypter_update(c: &mut Crypter, input: &[u8]) -> (r: Result<Vec<u8>, ErrorStack>)
    requires
        input@.len() <= MAX_UPDATE_LEN,
    ensures
        crypter_setup(*final(c)) == crypter_setup(*old(c)),
        r matches Ok(out) ==> out@.len() <= input@.len() && crypter_consumed(*final(c))
            == crypter_consumed(*old(c)) + input@,
        r matches Ok(out) ==> out@.len() == input@.len() ==> (forall|i: int|
            0 <= i < input@.len() ==> out@[i] == cfb8_byte(
                crypter_setup(*old(c)),
                crypter_consumed(*old(c)) + input@.take(i),
                input@[i],
            )),
{
    let mut out = vec![0u8; input.len()];
    let n = c.update(input, &mut out)?;
    out.truncate(n);
    Ok(out)
}

/// The cipher rejected a setup or an update.
#[derive(Debug, Clone, Copy, PartialEq, Eq, Structural)]
pub struct CipherFailure;

/// Accepts what an update handed back for `input`: a failure of the cipher, or
/// an output that is not exactly as long as the input, is a `CipherFailure`;
/// anything else is the output as it came.
pub fn accept_update(input: &[u8], res: Result<Vec<u8>, ErrorStack>) -> (r: Result<
    Vec<u8>,
    CipherFailure,
>)
    ensures
        r is Ok <==> (res matches Ok(out) && out@.len() == input@.len()),
        r matches Ok(o) ==> (res matches Ok(out) && o@ == out@),
{
    match res {
        Ok(out) => {
            if out.len() == input.len() {
                Ok(out)
            } else {
                Err(CipherFailure)
            }
        },
        Err(_) => Err(CipherFailure),
    }
}

/// The cipher of one session: AES-128-CFB8 under the session's key, IV and
/// direction, carrying its state from one update to the next.
pub struct CipherEngine {
    session: Session,
    crypter: Crypter,
}

impl CipherEngine {
    /// The session the engine is bound to.
    pub closed spec fn session(&self) -> SessionView {
        self.session@
    }

    /// Everything the engine has been fed so far.
    pub closed spec fn consumed(&self) -> Seq<u8> {
        crypter_consumed(self.crypter)
    }

    /// The cipher was set up from the session it is bound to.
    pub closed spec fn wf(&self) -> bool {
        &&& self.session@.wf()
        &&& crypter_setup(self.crypter) == handshake_bytes(self.session@)
    }

    /// An engine for `session` that has consumed nothing.
    pub fn new(session: Session) -> (r: Result<CipherEngine, CipherFailure>)
        requires
            session@.wf(),
        ensures
            r matches Ok(e) ==> e.wf() && e.session() == session@ && e.consumed() == Seq::<
                u8,
            >::empty(),
    {
        match new_crypter(session.mode, session.key.as_slice(), session.iv.as_slice()) {
            Ok(crypter) => Ok(CipherEngine { session, crypter }),
            Err(_) => Err(CipherFailure),
        }
    }

    /// Encrypts or decrypts the next piece of the stream. A cipher that hands
    /// back fewer bytes than it was given is treated as a failure.
    pub fn update(&mut self, input: &[u8]) -> (r: Result<Vec<u8>, CipherFailure>)
        requires
            old(self).wf(),
            input@.len() <= MAX_UPDATE_LEN,
        ensures
            final(self).wf(),
            final(self).session() == old(self).session(),
            r matches Ok(out) ==> {
                &&& out@ == cfb8_transform(
                    handshake_bytes(old(self).session()),
                    old(self).consumed(),
                    input@,
                )
                &&& out@.len() == input@.len()
                &&& final(self).consumed() == old(self).consumed() + input@
            },
    {
        let res = crypter_update(&mut self.crypter, input);
        let r = accept_update(input, res);
        if let Ok(out) = &r {
            assert(out@ =~= cfb8_transform(
                handshake_bytes(self.session@),
                old(self).consumed(),
                input@,
            ));
        }
        r
    }
}

/// The pieces of a stream laid end to end.
pub open spec fn concat(chunks: Seq<Seq<u8>>) -> Seq<u8>
    decreases chunks.len(),
{
    if chunks.len() == 0 {
        Seq::empty()
    } else {
        chunks[0] + concat(chunks.drop_first())
    }
}

/// What one session emits when it is fed `chunks` one after the other,
/// having consumed `prior` before them.
pub open spec fn transform_chunks(setup: Seq<u8>, prior: Seq<u8>, chunks: Seq<Seq<u8>>) -> Seq<u8>
    decreases chunks.len(),
{
    if chunks.len() == 0 {
        Seq::empty()
    } else {
        cfb8_transform(setup, prior, chunks[0]) + transform_chunks(
            setup,
            prior + chunks[0],
            chunks.drop_first(),
        )
    }
}

/// Feeding a stream in two pieces emits what feeding it at once emits.
pub proof fn lemma_transform_split(setup: Seq<u8>, prior: Seq<u8>, a: Seq<u8>, b: Seq<u8>)
    ensures
        cfb8_transform(setup, prior, a + b) == cfb8_transform(setup, prior, a) + cfb8_transform(
            setup,
            prior + a,
            b,
        ),
{
    let whole = cfb8_transform(setup, prior, a + b);
    let parts = cfb8_transform(setup, prior, a) + cfb8_transform(setup, prior + a, b);
    assert forall|i: int| 0 <= i < whole.len() implies whole[i] == parts[i] by {
        if i < a.len() {
            assert((a + b).take(i) =~= a.take(i));
        } else {
            assert(prior + (a + b).take(i) =~= (prior + a) + b.take(i - a.len()));
        }
    }
    assert(whole =~= parts);
}

/// Splitting a stream into any pieces and feeding them one after the other
/// through one session emits what feeding the whole stream at once emits.
pub proof fn lemma_chunking_independence(setup: Seq<u8>, prior: Seq<u8>, chunks: Seq<Seq<u8>>)
    ensures
        transform_chunks(setup, prior, chunks) == cfb8_transform(setup, prior, concat(chunks)),
    decreases chunks.len(),
{
    if chunks.len() == 0 {
        assert(cfb8_transform(setup, prior, concat(chunks)) =~= Seq::<u8>::empty());
    } else {
        lemma_chunking_independence(setup, prior + chunks[0], chunks.drop_first());
        lemma_transform_split(setup, prior, chunks[0], concat(chunks.drop_first()));
    }
}

/// Every response is exactly as long as the request it answers.
pub proof fn lemma_length_preserved(setup: Seq<u8>, prior: Seq<u8>, input: Seq<u8>)
    ensures
        cfb8_transform(setup, prior, input).len() == input.len(),
{
}

} // verus!
