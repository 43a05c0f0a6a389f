use vstd::prelude::*;

use crate::checksum::{le_word, word_sum, Checksum};
use crate::error::Error;
use crate::image::{IMAGE_TYPE_CHECKSUMMED, check_header, header_result, read_record, record_at, truncated, Record};
use vstd::slice::slice_subrange;

verus! {

/// Largest payload of one control transfer.
pub const MAX_CHUNK: usize = 4096;

/// The 32-bit sum `sum` after adding the words of `s[start..start + len]`.
pub open spec fn add_words(sum: u32, s: Seq<u8>, start: int, len: int) -> u32 {
    ((sum + word_sum(s.subrange(start, start + len), (len / 4) as nat)) % 0x1_0000_0000) as u32
}

/// The outcome of the records from byte `c` on, with `sum` the checksum of
/// the segments before: the entry address, or the first error met.
pub open spec fn scan(s: Seq<u8>, c: int, sum: u32) -> Result<u32, Error>
    decreases s.len() - c,
{
    if c < 0 || c > s.len() {
        Err(truncated(c, 4))
    } else {
        match record_at(s, c) {
            Err(e) => Err(e),
            Ok((Record::Entry { address, checksum }, _)) => if checksum == sum {
                Ok(address)
            } else {
                Err(Error::InvalidChecksum)
            },
            Ok((Record::Segment { start, len, .. }, next)) => if next <= c {
                Err(truncated(c, 4))
            } else {
                scan(s, next, add_words(sum, s, start as int, len as int))
            },
        }
    }
}

/// The outcome of downloading image `s`: its entry address when the header,
/// every record and the checksum are sound, else the first error met.
pub open spec fn image_result(s: Seq<u8>) -> Result<u32, Error> {
    match header_result(s) {
        Err(e) => Err(e),
        Ok(_) => scan(s, 4, 0),
    }
}

/// Payload length of the next transfer when `balance` bytes are left.
pub open spec fn chunk_len(balance: int) -> int {
    if balance > MAX_CHUNK {
        MAX_CHUNK as int
    } else {
        balance
    }
}

/// What the caller does next.
#[derive(Debug, Clone, Copy, PartialEq, Eq, Structural)]
pub enum Step {
    /// Write `len` bytes of the image, from byte `start`, to device memory
    /// at `address`, then report how many bytes the device took.
    Write { address: u32, start: usize, len: usize },
    /// Wait for the device to settle (one second) before starting it.
    Settle,
    /// Send the zero-length transfer that starts execution at `address`.
    Trigger { address: u32 },
    /// The firmware is running; nothing is left to do.
    Done,
}

/// Where a download stands.
#[derive(Debug, Clone, Copy, PartialEq, Eq, Structural)]
pub enum Phase {
    /// Transferring segments, or about to read the next record.
    Records,
    /// The checksum matched; the trigger at `entry` is owed.
    Trigger { entry: u32 },
    /// The trigger was handed out.
    Done,
}

/// The state of a download, as seen by contracts.
pub struct LoaderView {
    pub image: Seq<u8>,
    /// Offset of the next record.
    pub cursor: int,
    /// Checksum of the segments read so far.
    pub sum: u32,
    /// Device address of the next byte of the current segment.
    pub address: u32,
    /// Offset in the image of the next byte of the current segment.
    pub pos: int,
    /// Bytes of the current segment that the device has not yet taken.
    pub balance: int,
    pub phase: Phase,
}

impl LoaderView {
    /// The image has a sound header; during the records the current segment
    /// ends at the cursor and the records left, with the sum so far, lead to
    /// the outcome of the whole image; past them that outcome was a success.
    pub open spec fn wf(self) -> bool {
        &&& header_result(self.image) is Ok
        &&& self.image.len() <= usize::MAX
        &&& 4 <= self.cursor <= self.image.len()
        &&& 0 <= self.pos
        &&& 0 <= self.balance
        &&& self.phase == Phase::Records ==> {
            &&& self.pos + self.balance == self.cursor
            &&& scan(self.image, self.cursor, self.sum) == image_result(self.image)
        }
        &&& self.phase matches Phase::Trigger { entry } ==> image_result(self.image) == Ok::<
            u32,
            Error,
        >(entry)
        &&& self.phase == Phase::Done ==> image_result(self.image) is Ok
    }

    /// The step handed out in this state, and the state after it.
    pub open spec fn next(self) -> (Result<Step, Error>, LoaderView) {
        match self.phase {
            Phase::Done => (Ok(Step::Done), self),
            Phase::Trigger { entry } => (
                Ok(Step::Trigger { address: entry }),
                LoaderView { phase: Phase::Done, ..self },
            ),
            Phase::Records => if self.balance > 0 {
                (
                    Ok(
                        Step::Write {
                            address: self.address,
                            start: self.pos as usize,
                            len: chunk_len(self.balance) as usize,
                        },
                    ),
                    self,
                )
            } else {
                match record_at(self.image, self.cursor) {
                    Err(e) => (Err(e), self),
                    Ok((Record::Entry { address, checksum }, next)) => if checksum != self.sum {
                        (Err(Error::InvalidChecksum), self)
                    } else {
                        (
                            Ok(Step::Settle),
                            LoaderView { cursor: next, phase: Phase::Trigger { entry: address }, ..self },
                        )
                    },
                    Ok((Record::Segment { address, start, len }, next)) => (
                        Ok(
                            Step::Write {
                                address,
                                start,
                                len: chunk_len(len as int) as usize,
                            },
                        ),
                        LoaderView {
                            cursor: next,
                            sum: add_words(self.sum, self.image, start as int, len as int),
                            address,
                            pos: start as int,
                            balance: len as int,
                            ..self
                        },
                    ),
                }
            },
        }
    }

    /// The state after the device took `n` bytes of the pending write.
    pub open spec fn after_write(self, n: int) -> LoaderView {
        LoaderView {
            address: ((self.address + n) % 0x1_0000_0000) as u32,
            pos: self.pos + n,
            balance: self.balance - n,
            ..self
        }
    }
}

/// Decides, step by step, the control transfers that download one firmware
/// image into device RAM.
pub struct Loader {
    image: Vec<u8>,
    cursor: usize,
    checksum: Checksum,
    address: u32,
    pos: usize,
    balance: usize,
    phase: Phase,
}

impl View for Loader {
    type V = LoaderView;

    closed spec fn view(&self) -> LoaderView {
        LoaderView {
            image: self.image@,
            cursor: self.cursor as int,
            sum: self.checksum.value,
            address: self.address,
            pos: self.pos as int,
            balance: self.balance as int,
            phase: self.phase,
        }
    }
}

impl Loader {
    /// Starts a download of `image`, whose header must be sound.
    pub fn new(image: Vec<u8>) -> (r: Result<Loader, Error>)
        ensures
            match r {
                Ok(l) => header_result(image@) is Ok && l@ == (LoaderView {
                    image: image@,
                    cursor: 4,
                    sum: 0,
                    address: 0,
                    pos: 4,
                    balance: 0,
                    phase: Phase::Records,
                }),
                Err(e) => header_result(image@) == Err::<(), Error>(e),
            },
            r matches Ok(l) ==> l@.wf(),
    {
        let n = image.len();
        match check_header(image.as_slice()) {
            Err(e) => Err(e),
            Ok(()) => {
                assert(image@.len() >= 4);
                assert(image_result(image@) == scan(image@, 4, 0));
                assert(image@.len() == n);
                Ok(
                Loader {
                    image,
                    cursor: 4,
                    checksum: Checksum::new(),
                    address: 0,
                    pos: 4,
                    balance: 0,
                    phase: Phase::Records,
                },
            )
            },
        }
    }

    /// The image being downloaded.
    pub fn image(&self) -> (r: &[u8])
        ensures
            r@ == self@.image,
    {
        self.image.as_slice()
    }

    /// Hands out the next step. Within a segment the step is the next chunk
    /// of at most `MAX_CHUNK` bytes; between segments the next record is read,
    /// and a segment's words join the checksum before its first chunk. After
    /// the last record the stored checksum is compared, then the settling
    /// wait and the trigger follow. On an error the state stays as it was.
    pub fn next_step(&mut self) -> (r: Result<Step, Error>)
        requires
            old(self)@.wf(),
        ensures
            final(self)@.wf(),
            (r, final(self)@) == old(self)@.next(),
    {
        match self.phase {
            Phase::Done => Ok(Step::Done),
            Phase::Trigger { entry } => {
                self.phase = Phase::Done;
                Ok(Step::Trigger { address: entry })
            },
            Phase::Records => {
                if self.balance > 0 {
                    let len = if self.balance > MAX_CHUNK {
                        MAX_CHUNK
                    } else {
                        self.balance
                    };
                    return Ok(Step::Write { address: self.address, start: self.pos, len });
                }
                match read_record(self.image.as_slice(), self.cursor) {
                    Err(e) => Err(e),
                    Ok((Record::Entry { address, checksum }, next)) => {
                        if checksum != self.checksum.value {
                            return Err(Error::InvalidChecksum);
                        }
                        self.cursor = next;
                        self.phase = Phase::Trigger { entry: address };
                        Ok(Step::Settle)
                    },
                    Ok((Record::Segment { address, start, len }, next)) => {
                        let data = slice_subrange(self.image.as_slice(), start, start + len);
                        let _ = self.checksum.update(data);
                        self.cursor = next;
                        self.address = address;
                        self.pos = start;
                        self.balance = len;
                        let first = if len > MAX_CHUNK {
                            MAX_CHUNK
                        } else {
                            len
                        };
                        Ok(Step::Write { address, start, len: first })
                    },
                }
            },
        }
    }

    /// Records that the device took `n` bytes of the write just handed out:
    /// the address, the position and the balance move by `n`, not by what
    /// was asked for.
    pub fn written(&mut self, n: usize)
        requires
            old(self)@.wf(),
            old(self)@.phase == Phase::Records,
            old(self)@.balance > 0,
            n <= chunk_len(old(self)@.balance),
        ensures
            final(self)@.wf(),
            final(self)@ == old(self)@.after_write(n as int),
    {
        self.address = self.address.wrapping_add(n as u32);
        self.pos = self.pos + n;
        self.balance = self.balance - n;
    }
}

/// An image whose first two bytes are not "CY" fails with `MissingMagic`,
/// whatever follows.
pub proof fn lemma_missing_magic(s: Seq<u8>)
    requires
        s.len() >= 2,
        !(s[0] == 0x43u8 && s[1] == 0x59u8),
    ensures
        image_result(s) == Err::<u32, Error>(Error::MissingMagic),
{
}

/// An image with "CY" and bit 0 of its flags byte set fails with
/// `NotExecutable`, whatever follows.
pub proof fn lemma_not_executable(s: Seq<u8>)
    requires
        s.len() >= 3,
        s[0] == 0x43u8 && s[1] == 0x59u8,
        s[2] % 2 == 1,
    ensures
        image_result(s) == Err::<u32, Error>(Error::NotExecutable),
{
}

/// An executable image with "CY" whose type byte is not the checksummed type
/// fails with `AbnormalFirmware`, whatever follows.
pub proof fn lemma_abnormal_firmware(s: Seq<u8>)
    requires
        s.len() >= 4,
        s[0] == 0x43u8 && s[1] == 0x59u8,
        s[2] % 2 == 0,
        s[3] != IMAGE_TYPE_CHECKSUMMED,
    ensures
        image_result(s) == Err::<u32, Error>(Error::AbnormalFirmware),
{
}

/// A segment record whose data would run past the end of the image makes
/// the step that reads it fail with truncated data, and so the whole image.
pub proof fn lemma_segment_past_end(v: LoaderView)
    requires
        v.wf(),
        v.phase == Phase::Records,
        v.balance == 0,
        v.cursor + 8 <= v.image.len(),
        le_word(v.image, v.cursor) != 0,
        v.cursor + 8 + 4 * le_word(v.image, v.cursor) > v.image.len(),
    ensures
        v.next().0 == Err::<Step, Error>(
            truncated(v.cursor + 8, 4 * le_word(v.image, v.cursor)),
        ),
        image_result(v.image) == Err::<u32, Error>(
            truncated(v.cursor + 8, 4 * le_word(v.image, v.cursor)),
        ),
{
}

/// The trigger is handed out only for an image whose stored checksum equals
/// the 32-bit sum of the words of all its segments, and then at the entry
/// address that the image names.
pub proof fn lemma_trigger_needs_sound_image(v: LoaderView, address: u32)
    requires
        v.wf(),
        v.next().0 == Ok::<Step, Error>(Step::Trigger { address }),
    ensures
        image_result(v.image) == Ok::<u32, Error>(address),
{
}

/// A sound image never makes a step fail: every state that a download of it
/// passes through hands out a write, the settling wait, the trigger or the
/// end.
pub proof fn lemma_sound_image_never_fails(v: LoaderView)
    requires
        v.wf(),
        image_result(v.image) is Ok,
    ensures
        v.next().0 is Ok,
        v.next().1.wf(),
{
    if v.phase == Phase::Records && v.balance == 0 {
        assert(scan(v.image, v.cursor, v.sum) is Ok);
    }
}

/// After the last record, the download goes on to the settling wait exactly
/// when the stored checksum equals the sum of the segments read; otherwise
/// it fails with `InvalidChecksum`.
pub proof fn lemma_checksum_decides(v: LoaderView)
    requires
        v.wf(),
        v.phase == Phase::Records,
        v.balance == 0,
        record_at(v.image, v.cursor) matches Ok((Record::Entry { .. }, _)),
    ensures
        record_at(v.image, v.cursor) matches Ok((Record::Entry { checksum, .. }, _)) && (
        checksum == v.sum <==> v.next().0 == Ok::<Step, Error>(Step::Settle)) && (checksum
            != v.sum <==> v.next().0 == Err::<Step, Error>(Error::InvalidChecksum)),
{
}

/// The steps handed out for the rest of the current segment when the device
/// always takes the whole chunk that was asked for.
pub open spec fn full_writes(v: LoaderView) -> Seq<Result<Step, Error>>
    decreases v.balance,
{
    if v.phase == Phase::Records && v.balance > 0 {
        seq![v.next().0] + full_writes(v.after_write(chunk_len(v.balance)))
    } else {
        seq![]
    }
}

/// When the device always takes the whole chunk, a segment of S bytes goes
/// out in ceil(S / MAX_CHUNK) writes, and the k-th write goes to the
/// segment's address plus the bytes taken by the writes before it.
pub proof fn lemma_full_writes(v: LoaderView)
    requires
        v.phase == Phase::Records,
        v.balance > 0,
    ensures
        full_writes(v).len() == (v.balance + MAX_CHUNK - 1) / MAX_CHUNK as int,
        forall|k: int|
            0 <= k < full_writes(v).len() ==> #[trigger] full_writes(v)[k] == Ok::<Step, Error>(
                Step::Write {
                    address: ((v.address + MAX_CHUNK * k) % 0x1_0000_0000) as u32,
                    start: (v.pos + MAX_CHUNK * k) as usize,
                    len: chunk_len(v.balance - MAX_CHUNK * k) as usize,
                },
            ),
    decreases v.balance,
{
    let w = v.after_write(chunk_len(v.balance));
    if v.balance <= MAX_CHUNK {
        assert(full_writes(w) =~= seq![]);
        assert((v.balance + MAX_CHUNK - 1) / MAX_CHUNK as int == 1);
        assert((v.address as int) % 0x1_0000_0000 == v.address as int);
    } else {
        lemma_full_writes(w);
        assert((v.balance + MAX_CHUNK - 1) / MAX_CHUNK as int == 1 + (w.balance + MAX_CHUNK - 1)
            / MAX_CHUNK as int);
        assert forall|k: int| 0 <= k < full_writes(v).len() implies #[trigger] full_writes(v)[k]
            == Ok::<Step, Error>(
            Step::Write {
                address: ((v.address + MAX_CHUNK * k) % 0x1_0000_0000) as u32,
                start: (v.pos + MAX_CHUNK * k) as usize,
                len: chunk_len(v.balance - MAX_CHUNK * k) as usize,
            },
        ) by {
            if k == 0 {
                assert((v.address as int) % 0x1_0000_0000 == v.address as int);
            } else {
                assert(full_writes(v)[k] == full_writes(w)[k - 1]);
                vstd::arithmetic::div_mod::lemma_add_mod_noop(
                    v.address + MAX_CHUNK,
                    MAX_CHUNK * (k - 1),
                    0x1_0000_0000,
                );
                vstd::arithmetic::div_mod::lemma_mod_twice(
                    MAX_CHUNK * (k - 1),
                    0x1_0000_0000,
                );
                vstd::arithmetic::div_mod::lemma_add_mod_noop(
                    (v.address + MAX_CHUNK) % 0x1_0000_0000,
                    MAX_CHUNK * (k - 1),
                    0x1_0000_0000,
                );
                vstd::arithmetic::div_mod::lemma_mod_twice(v.address + MAX_CHUNK, 0x1_0000_0000);
            }
        }
    }
}

/// The sum of `ws`.
pub open spec fn total(ws: Seq<int>) -> int
    decreases ws.len(),
{
    if ws.len() == 0 {
        0
    } else {
        total(ws.drop_last()) + ws.last()
    }
}

/// The state after the device took, in turn, the byte counts of `ws`.
pub open spec fn after_writes(v: LoaderView, ws: Seq<int>) -> LoaderView
    decreases ws.len(),
{
    if ws.len() == 0 {
        v
    } else {
        after_writes(v, ws.drop_last()).after_write(ws.last())
    }
}

/// However the device splits what it takes, only the bytes it took count:
/// address, position and balance move by their sum, and the download stays
/// on the segment, asking for the bytes not yet taken, until that sum
/// reaches the segment's length. Only then is the next record read.
pub proof fn lemma_partial_writes(v: LoaderView, ws: Seq<int>)
    requires
        v.phase == Phase::Records,
        v.balance >= 0,
        0 <= v.pos,
        forall|k: int| 0 <= k < ws.len() ==> 0 <= #[trigger] ws[k],
        total(ws) <= v.balance,
    ensures
        after_writes(v, ws) == (LoaderView {
            address: ((v.address + total(ws)) % 0x1_0000_0000) as u32,
            pos: v.pos + total(ws),
            balance: v.balance - total(ws),
            ..v
        }),
        total(ws) < v.balance ==> after_writes(v, ws).next() == (
            Ok::<Step, Error>(
                Step::Write {
                    address: ((v.address + total(ws)) % 0x1_0000_0000) as u32,
                    start: (v.pos + total(ws)) as usize,
                    len: chunk_len(v.balance - total(ws)) as usize,
                },
            ),
            after_writes(v, ws),
        ),
        total(ws) == v.balance ==> after_writes(v, ws).next() == (LoaderView {
            address: ((v.address + total(ws)) % 0x1_0000_0000) as u32,
            pos: v.pos + total(ws),
            balance: 0,
            ..v
        }).next(),
    decreases ws.len(),
{
    if ws.len() == 0 {
        assert((v.address as int) % 0x1_0000_0000 == v.address as int);
    } else {
        let init = ws.drop_last();
        assert forall|k: int| 0 <= k < init.len() implies 0 <= #[trigger] init[k] by {
            assert(init[k] == ws[k]);
        }
        assert(ws.last() == ws[ws.len() - 1]);
        lemma_partial_writes(v, init);
        vstd::arithmetic::div_mod::lemma_add_mod_noop(v.address + total(init), ws.last(), 0x1_0000_0000);
        vstd::arithmetic::div_mod::lemma_mod_twice(ws.last(), 0x1_0000_0000);
        vstd::arithmetic::div_mod::lemma_add_mod_noop(
            (v.address + total(init)) % 0x1_0000_0000,
            ws.last(),
            0x1_0000_0000,
        );
        vstd::arithmetic::div_mod::lemma_mod_twice(v.address + total(init), 0x1_0000_0000);
    }
}

} // verus!
