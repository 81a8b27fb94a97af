//! Random words that mark headers and aligned payloads.

use crate::Magic;
use crate::RSMallocError;
use vstd::arithmetic::power2;
use vstd::prelude::*;

verus! {

/// Draws `n` random bytes with `rustix::rand::getrandom` and no flags; an error is given as the
/// error number that `rustix::io::Errno::raw_os_error` tells. Nothing is claimed about the bytes
/// but how many they are: the buffer has `n` bytes whatever the call wrote to it.
#[verifier::external_body]
pub(crate) fn random_bytes(n: usize) -> (r: Result<Vec<u8>, i32>)
    ensures
        r matches Ok(bytes) ==> bytes@.len() == n,
{
    let mut bytes = vec![0u8; n];
    match rustix::rand::getrandom(&mut bytes[..], rustix::rand::GetRandomFlags::empty()) {
        Ok(_) => Ok(bytes),
        Err(e) => Err(e.raw_os_error()),
    }
}

/// The number that bytes stand for, the least significant first.
pub open spec fn le_value(bytes: Seq<u8>) -> int
    decreases bytes.len(),
{
    if bytes.len() == 0 {
        0
    } else {
        bytes[0] + 256 * le_value(bytes.subrange(1, bytes.len() as int))
    }
}

/// So many bytes stand for so small a number.
pub proof fn lemma_le_bound(bytes: Seq<u8>)
    ensures
        0 <= le_value(bytes) < power2::pow2((8 * bytes.len()) as nat),
    decreases bytes.len(),
{
    power2::lemma2_to64();
    if bytes.len() > 0 {
        let rest = bytes.subrange(1, bytes.len() as int);
        lemma_le_bound(rest);
        power2::lemma_pow2_adds(8, (8 * rest.len()) as nat);
        assert(8 + 8 * rest.len() == 8 * bytes.len());
    }
}

/// Reads a number, the least significant byte first.
pub fn from_le_bytes(bytes: &Vec<u8>) -> (r: u64)
    requires
        bytes@.len() <= 8,
    ensures
        r == le_value(bytes@),
{
    let mut value: u64 = 0;
    let mut i: usize = bytes.len();
    assert(bytes@.subrange(i as int, bytes@.len() as int) =~= Seq::<u8>::empty());
    while i > 0
        invariant
            i <= bytes@.len() <= 8,
            value == le_value(bytes@.subrange(i as int, bytes@.len() as int)),
        decreases i,
    {
        let ghost here = bytes@.subrange(i - 1, bytes@.len() as int);
        proof {
            assert(here.subrange(1, here.len() as int) =~= bytes@.subrange(
                i as int,
                bytes@.len() as int,
            ));
            lemma_le_bound(here);
            power2::lemma2_to64();
            power2::lemma2_to64_rest();
            if 8 * here.len() < 64 {
                power2::lemma_pow2_strictly_increases((8 * here.len()) as nat, 64);
            }
        }
        i = i - 1;
        value = bytes[i] as u64 + 256 * value;
    }
    assert(bytes@.subrange(0, bytes@.len() as int) =~= bytes@);
    value
}

/// Which word is drawn next.
#[derive(Clone, Copy, Debug, PartialEq, Eq, Structural)]
pub enum MagicStage {
    Main,
    Freed,
    Big,
    /// The word for freed blocks is equal to the one for blocks in use.
    FreedAgain,
    /// The word for large allocations is equal to one of the others.
    BigAgain,
    Done,
}

/// Why no random words could be had.
#[derive(Clone, Copy, Debug, PartialEq, Eq)]
pub struct RandomFailure {
    pub error: RSMallocError,
    pub message: &'static str,
    pub errno: i32,
}

/// Random words on the way to becoming marks.
pub struct MagicInit {
    /// Bytes of a word.
    width: usize,
    stage: MagicStage,
    magic: Magic,
}

/// Words that a header of the given width can hold.
pub open spec fn fits_width(word: u64, width: int) -> bool {
    word < power2::pow2((8 * width) as nat)
}

/// What follows once all three words were drawn.
pub open spec fn settled(m: Magic) -> MagicStage {
    if m.freed == m.main {
        MagicStage::FreedAgain
    } else if m.big == m.freed || m.big == m.main {
        MagicStage::BigAgain
    } else {
        MagicStage::Done
    }
}

/// The words after `word` was drawn in a stage.
pub open spec fn with_word(m: Magic, stage: MagicStage, word: u64) -> Magic {
    match stage {
        MagicStage::Main => Magic { main: word, ..m },
        MagicStage::Freed => Magic { freed: word, ..m },
        MagicStage::FreedAgain => Magic { freed: word, ..m },
        MagicStage::Big => Magic { big: word, ..m },
        MagicStage::BigAgain => Magic { big: word, ..m },
        MagicStage::Done => m,
    }
}

/// The stage after `stage`, once its word made `m`.
pub open spec fn stage_after(stage: MagicStage, m: Magic) -> MagicStage {
    match stage {
        MagicStage::Main => MagicStage::Freed,
        MagicStage::Freed => MagicStage::Big,
        _ => settled(m),
    }
}

/// The complaint about a failed draw.
pub open spec fn spec_complaint(stage: MagicStage) -> Seq<char> {
    match stage {
        MagicStage::Main => "calling getrandom failed, cannot initialize magic"@,
        MagicStage::Freed => "calling getrandom failed, cannot initialize freed magic"@,
        MagicStage::FreedAgain => "calling getrandom failed, cannot initialize freed magic"@,
        MagicStage::Big => "calling getrandom failed, cannot initialize big magic"@,
        MagicStage::BigAgain => "calling getrandom failed, cannot initialize big magic"@,
        MagicStage::Done => ""@,
    }
}

impl MagicInit {
    pub closed spec fn width(&self) -> int {
        self.width as int
    }

    pub closed spec fn stage(&self) -> MagicStage {
        self.stage
    }

    pub closed spec fn words(&self) -> Magic {
        self.magic
    }

    /// All words fit, and they are all distinct at the end.
    pub open spec fn wf(&self) -> bool {
        &&& 1 <= self.width() <= 8
        &&& fits_width(self.words().main, self.width())
        &&& fits_width(self.words().freed, self.width())
        &&& fits_width(self.words().big, self.width())
        &&& self.stage() is Done ==> self.words().distinct()
    }

    /// Nothing is drawn yet. Words have two bytes in a short header and eight in a long one.
    pub fn new(extended_header: bool) -> (r: Self)
        ensures
            r.wf(),
            r.width() == if extended_header {
                8int
            } else {
                2int
            },
            r.stage() == MagicStage::Main,
    {
        let width: usize = if extended_header {
            8
        } else {
            2
        };
        proof {
            power2::lemma_pow2_pos((8 * width) as nat);
        }
        MagicInit { width, stage: MagicStage::Main, magic: Magic { main: 0, freed: 0, big: 0 } }
    }

    /// `after` is this state once `bytes` were drawn.
    pub open spec fn drawn(&self, after: &Self, bytes: Seq<u8>) -> bool {
        &&& after.width() == self.width()
        &&& after.words() == with_word(self.words(), self.stage(), le_value(bytes) as u64)
        &&& after.stage() == stage_after(self.stage(), after.words())
    }

    /// Takes the bytes of the next word.
    pub fn draw(&mut self, bytes: &Vec<u8>)
        requires
            old(self).wf(),
            !(old(self).stage() is Done),
            bytes@.len() == old(self).width(),
        ensures
            final(self).wf(),
            old(self).drawn(final(self), bytes@),
    {
        let word: u64 = from_le_bytes(bytes);
        proof {
            lemma_le_bound(bytes@);
        }
        match self.stage {
            MagicStage::Main => {
                self.magic.main = word;
                self.stage = MagicStage::Freed;
            },
            MagicStage::Freed => {
                self.magic.freed = word;
                self.stage = MagicStage::Big;
            },
            _ => {
                if matches!(self.stage, MagicStage::FreedAgain) {
                    self.magic.freed = word;
                } else {
                    self.magic.big = word;
                }
                let m = self.magic;
                self.stage = if m.freed == m.main {
                    MagicStage::FreedAgain
                } else if m.big == m.freed || m.big == m.main {
                    MagicStage::BigAgain
                } else {
                    MagicStage::Done
                };
            },
        }
    }

    fn complaint(&self) -> (r: &'static str)
        ensures
            r@ == spec_complaint(self.stage()),
    {
        match self.stage {
            MagicStage::Main => "calling getrandom failed, cannot initialize magic",
            MagicStage::Freed => "calling getrandom failed, cannot initialize freed magic",
            MagicStage::FreedAgain => "calling getrandom failed, cannot initialize freed magic",
            MagicStage::Big => "calling getrandom failed, cannot initialize big magic",
            MagicStage::BigAgain => "calling getrandom failed, cannot initialize big magic",
            MagicStage::Done => "",
        }
    }

    /// Draws the next word from the system. Has to be repeated until the words are distinct.
    pub fn init_magic(&mut self) -> (r: Result<(), RandomFailure>)
        requires
            old(self).wf(),
            !(old(self).stage() is Done),
        ensures
            final(self).wf(),
            r is Ok ==> exists|bytes: Seq<u8>|
                bytes.len() == old(self).width() && #[trigger] old(self).drawn(final(self), bytes),
            r matches Err(e) ==> {
                &&& *final(self) == *old(self)
                &&& e.error == RSMallocError::SecurityViolation
                &&& e.message@ == spec_complaint(old(self).stage())
            },
    {
        match random_bytes(self.width) {
            Ok(bytes) => {
                self.draw(&bytes);
                assert(old(self).drawn(self, bytes@));
                Ok(())
            },
            Err(errno) => Err(
                RandomFailure {
                    error: RSMallocError::SecurityViolation,
                    message: self.complaint(),
                    errno,
                },
            ),
        }
    }

    /// The words, once they are distinct.
    pub fn finish(&self) -> (r: Option<Magic>)
        requires
            self.wf(),
        ensures
            r == (if self.stage() is Done {
                Some(self.words())
            } else {
                None
            }),
            r matches Some(m) ==> m.distinct(),
    {
        if matches!(self.stage, MagicStage::Done) {
            Some(self.magic)
        } else {
            None
        }
    }
}

/// The tag of aligned payloads that the bytes of a word stand for. Zero is no tag.
pub open spec fn tag_of(bytes: Seq<u8>) -> Option<usize> {
    if le_value(bytes) == 0 {
        None
    } else {
        Some(le_value(bytes) as usize)
    }
}

/// The tag of aligned payloads that random bytes stand for. Zero is no tag.
pub fn align_tag(bytes: &Vec<u8>) -> (r: Option<usize>)
    requires
        bytes@.len() * 8 == usize::BITS,
    ensures
        r == tag_of(bytes@),
        r matches Some(tag) ==> tag == le_value(bytes@),
{
    proof {
        lemma_le_bound(bytes@);
        power2::lemma2_to64();
        power2::lemma2_to64_rest();
        assert(usize::BITS == 32 || usize::BITS == 64);
    }
    let word: u64 = from_le_bytes(bytes);
    if word == 0 {
        None
    } else {
        Some(word as usize)
    }
}

/// Draws a tag for aligned payloads from the system: as many bytes as a `usize` has, read with
/// the least significant first. Has to be repeated until there is one.
pub fn init_align() -> (r: Result<Option<usize>, RandomFailure>)
    ensures
        r matches Ok(drawn) ==> exists|bytes: Seq<u8>|
            bytes.len() * 8 == usize::BITS && drawn == #[trigger] tag_of(bytes),
        r matches Ok(Some(tag)) ==> tag != 0,
        r matches Err(e) ==> {
            &&& e.error == RSMallocError::SecurityViolation
            &&& e.message@ == "calling getrandom failed, cannot initialize align tag"@
        },
{
    match random_bytes((usize::BITS / 8) as usize) {
        Ok(bytes) => {
            proof {
                assert(usize::BITS == 32 || usize::BITS == 64);
            }
            Ok(align_tag(&bytes))
        },
        Err(errno) => Err(
            RandomFailure {
                error: RSMallocError::SecurityViolation,
                message: "calling getrandom failed, cannot initialize align tag",
                errno,
            },
        ),
    }
}

/// Bytes are read with the least significant first: each byte counts 256 times what the one before it
/// counts, and different bytes are different words.
pub proof fn law_words_from_bytes(bytes: Seq<u8>, other: Seq<u8>)
    requires
        bytes.len() == other.len(),
    ensures
        bytes.len() > 0 ==> le_value(bytes) % 256 == bytes[0] && le_value(bytes) / 256 == le_value(
            bytes.skip(1),
        ),
        bytes.len() == 0 ==> le_value(bytes) == 0,
        le_value(bytes) == le_value(other) ==> bytes == other,
    decreases bytes.len(),
{
    if bytes.len() > 0 {
        let a = bytes.subrange(1, bytes.len() as int);
        let b = other.subrange(1, other.len() as int);
        assert(bytes.skip(1) =~= a);
        law_words_from_bytes(a, b);
        lemma_le_bound(a);
        lemma_le_bound(b);
        if le_value(bytes) == le_value(other) {
            assert(bytes[0] == other[0] && a == b);
            assert forall|i: int| 0 <= i < bytes.len() implies bytes[i] == other[i] by {
                if i > 0 {
                    assert(a[i - 1] == b[i - 1]);
                }
            }
        }
    }
    if le_value(bytes) == le_value(other) {
        assert(bytes =~= other);
    }
}

/// Words are drawn one after the other until all three differ: drawing ends exactly then, and a word
/// that is drawn again is one that was equal to another.
pub proof fn law_drawing_ends_with_distinct_words(m: Magic, stage: MagicStage, word: u64)
    requires
        !(stage is Done),
    ensures
        ({
            let after = with_word(m, stage, word);
            let next = stage_after(stage, after);
            &&& !(stage is Main) && !(stage is Freed) ==> (next is Done <==> after.distinct())
            &&& stage is Main ==> next is Freed && after.main == word && after.freed == m.freed
                && after.big == m.big
            &&& stage is Freed ==> next is Big && after.freed == word && after.main == m.main
                && after.big == m.big
            &&& stage is FreedAgain ==> after.freed == word && after.main == m.main && after.big
                == m.big
            &&& stage is Big || stage is BigAgain ==> after.big == word && after.main == m.main
                && after.freed == m.freed
            &&& !(stage is Main) && !(stage is Freed) && next is FreedAgain ==> after.freed
                == after.main
            &&& !(stage is Main) && !(stage is Freed) && next is BigAgain ==> after.freed
                != after.main && (after.big == after.freed || after.big == after.main)
            &&& !(stage is Main) && !(stage is Freed) ==> next is Done || next is FreedAgain
                || next is BigAgain
        }),
{
}

/// Zero is no tag, and any other word is the tag that it spells.
pub proof fn law_tags(bytes: Seq<u8>)
    requires
        bytes.len() * 8 == usize::BITS,
    ensures
        tag_of(bytes) is None <==> forall|i: int| 0 <= i < bytes.len() ==> #[trigger] bytes[i] == 0,
        tag_of(bytes) matches Some(tag) ==> tag == le_value(bytes) && tag != 0,
{
    lemma_le_bound(bytes);
    power2::lemma2_to64();
    power2::lemma2_to64_rest();
    assert(usize::BITS == 32 || usize::BITS == 64);
    let zeros = Seq::new(bytes.len(), |i: int| 0u8);
    lemma_zeros(zeros);
    law_words_from_bytes(bytes, zeros);
    if forall|i: int| 0 <= i < bytes.len() ==> #[trigger] bytes[i] == 0 {
        assert(bytes =~= zeros);
    }
    if le_value(bytes) == 0 {
        assert(bytes == zeros);
        assert forall|i: int| 0 <= i < bytes.len() implies #[trigger] bytes[i] == 0 by {
            assert(zeros[i] == 0);
        }
    }
}

proof fn lemma_zeros(zeros: Seq<u8>)
    requires
        forall|i: int| 0 <= i < zeros.len() ==> #[trigger] zeros[i] == 0,
    ensures
        le_value(zeros) == 0,
    decreases zeros.len(),
{
    if zeros.len() > 0 {
        lemma_zeros(zeros.subrange(1, zeros.len() as int));
    }
}

/// A complaint names the word that could not be drawn, the same one for a second draw, and there is
/// none once all are drawn.
pub proof fn law_complaints(stage: MagicStage)
    ensures
        spec_complaint(stage).len() == 0 <==> stage is Done,
        spec_complaint(MagicStage::FreedAgain) == spec_complaint(MagicStage::Freed),
        spec_complaint(MagicStage::BigAgain) == spec_complaint(MagicStage::Big),
        spec_complaint(MagicStage::Main) != spec_complaint(MagicStage::Freed),
        spec_complaint(MagicStage::Main) != spec_complaint(MagicStage::Big),
        spec_complaint(MagicStage::Freed) != spec_complaint(MagicStage::Big),
{
    reveal_strlit("calling getrandom failed, cannot initialize magic");
    reveal_strlit("calling getrandom failed, cannot initialize freed magic");
    reveal_strlit("calling getrandom failed, cannot initialize big magic");
    reveal_strlit("");
    assert("calling getrandom failed, cannot initialize magic"@.len() == 49);
    assert("calling getrandom failed, cannot initialize freed magic"@.len() == 55);
    assert("calling getrandom failed, cannot initialize big magic"@.len() == 53);
}

} // verus!
