use vstd::prelude::*;
use crate::checksum::{push_byte, spec_push_byte};
use crate::framing::{end_marker, end_marker_byte, start_marker, start_marker_byte};

verus! {

/// Where the scan for a framed payload stands. The number is the progress
/// within the marker or the checksum: how many of its bytes have been seen.
#[derive(Clone, Copy, Debug, PartialEq, Eq, Structural)]
pub enum ScanState {
    /// Looking for the start marker.
    SeekingStart(u8),
    /// Past the start marker, looking for the end marker.
    SeekingEnd(u8),
    /// Past the end marker, reading the checksum. At progress 4 the scan is over.
    ReadingChecksum(u8),
}

impl ScanState {
    /// Progress is below 4 while seeking, and at most 4 in the checksum.
    pub open spec fn wf(self) -> bool {
        match self {
            ScanState::SeekingStart(n) => n < 4,
            ScanState::SeekingEnd(n) => n < 4,
            ScanState::ReadingChecksum(n) => n <= 4,
        }
    }

    /// The scan is over once all four checksum bytes have been read.
    pub open spec fn is_terminal(self) -> bool {
        self == ScanState::ReadingChecksum(4)
    }
}

/// A scan as a mathematical value: its state, the payload bytes confirmed so
/// far, and the checksum bytes read so far as a big-endian number.
pub struct Scan {
    pub state: ScanState,
    pub payload: Seq<u8>,
    pub stored: u32,
}

/// The scan before any byte: seeking the start marker, nothing recovered.
pub open spec fn scan_start() -> Scan {
    Scan { state: ScanState::SeekingStart(0), payload: Seq::empty(), stored: 0 }
}

/// The scan after one more byte.
///
/// While seeking the start marker a byte either continues the marker or throws
/// the progress away. While seeking the end marker a byte that continues the
/// marker is held back; one that does not is payload, and so are the marker
/// bytes that were held back before it. After the end marker four bytes are
/// read as the checksum, and then nothing changes any more.
pub open spec fn scan_step(s: Scan, byte: u8) -> Scan {
    match s.state {
        ScanState::SeekingStart(n) => {
            if n < 3 && byte == start_marker()[n as int] {
                Scan { state: ScanState::SeekingStart((n + 1) as u8), ..s }
            } else if n == 3 && byte == start_marker()[3] {
                Scan { state: ScanState::SeekingEnd(0), ..s }
            } else {
                Scan { state: ScanState::SeekingStart(0), ..s }
            }
        },
        ScanState::SeekingEnd(n) => {
            if n < 3 && byte == end_marker()[n as int] {
                Scan { state: ScanState::SeekingEnd((n + 1) as u8), ..s }
            } else if n == 3 && byte == end_marker()[3] {
                Scan { state: ScanState::ReadingChecksum(0), ..s }
            } else {
                Scan {
                    state: ScanState::SeekingEnd(0),
                    payload: s.payload + end_marker().take(n as int) + seq![byte],
                    ..s
                }
            }
        },
        ScanState::ReadingChecksum(n) => {
            if n < 4 {
                Scan {
                    state: ScanState::ReadingChecksum((n + 1) as u8),
                    stored: spec_push_byte(s.stored, byte),
                    ..s
                }
            } else {
                s
            }
        },
    }
}

/// The scan after a sequence of bytes, taken in order.
pub open spec fn scan_run(s: Scan, bytes: Seq<u8>) -> Scan
    decreases bytes.len(),
{
    if bytes.len() == 0 {
        s
    } else {
        scan_step(scan_run(s, bytes.drop_last()), bytes.last())
    }
}

/// The scan of a whole byte sequence from the beginning.
pub open spec fn scan_of(bytes: Seq<u8>) -> Scan {
    scan_run(scan_start(), bytes)
}

/// Once the scan is over, further bytes change nothing.
pub proof fn lemma_run_terminal(s: Scan, bytes: Seq<u8>)
    requires
        s.state.is_terminal(),
    ensures
        scan_run(s, bytes) == s,
    decreases bytes.len(),
{
    if bytes.len() > 0 {
        lemma_run_terminal(s, bytes.drop_last());
    }
}

/// Scanning two sequences one after the other is scanning their concatenation.
pub proof fn lemma_run_concat(s: Scan, first: Seq<u8>, second: Seq<u8>)
    ensures
        scan_run(s, first + second) == scan_run(scan_run(s, first), second),
    decreases second.len(),
{
    if second.len() == 0 {
        assert(first + second =~= first);
    } else {
        assert((first + second).drop_last() =~= first + second.drop_last());
        assert((first + second).last() == second.last());
        lemma_run_concat(s, first, second.drop_last());
    }
}

/// Scanning one byte is one step.
pub proof fn lemma_run_one(s: Scan, byte: u8)
    ensures
        scan_run(s, seq![byte]) == scan_step(s, byte),
{
    assert(seq![byte].drop_last() =~= Seq::<u8>::empty());
    assert(scan_run(s, seq![byte].drop_last()) == s);
}

/// A scan that reached its end on a prefix of the bytes has the same result
/// on all of them.
pub proof fn lemma_run_prefix_terminal(s: Scan, bytes: Seq<u8>, n: int)
    requires
        0 <= n <= bytes.len(),
        scan_run(s, bytes.take(n)).state.is_terminal(),
    ensures
        scan_run(s, bytes) == scan_run(s, bytes.take(n)),
{
    assert(bytes =~= bytes.take(n) + bytes.skip(n));
    lemma_run_concat(s, bytes.take(n), bytes.skip(n));
    lemma_run_terminal(scan_run(s, bytes.take(n)), bytes.skip(n));
}

/// Scanning four bytes is four steps.
pub proof fn lemma_run_four(s: Scan, a: u8, b: u8, c: u8, d: u8)
    ensures
        scan_run(s, seq![a, b, c, d]) == scan_step(
            scan_step(scan_step(scan_step(s, a), b), c),
            d,
        ),
{
    assert(seq![a, b, c, d] =~= seq![a] + seq![b] + seq![c] + seq![d]);
    lemma_run_concat(s, seq![a] + seq![b] + seq![c], seq![d]);
    lemma_run_concat(s, seq![a] + seq![b], seq![c]);
    lemma_run_concat(s, seq![a], seq![b]);
    lemma_run_one(s, a);
    lemma_run_one(scan_step(s, a), b);
    lemma_run_one(scan_step(scan_step(s, a), b), c);
    lemma_run_one(scan_step(scan_step(scan_step(s, a), b), c), d);
}

/// From progress 0, the start marker takes the scan to the search for the
/// end marker.
pub proof fn lemma_scan_start_marker(s: Scan)
    requires
        s.state == ScanState::SeekingStart(0),
    ensures
        scan_run(s, start_marker()) == (Scan { state: ScanState::SeekingEnd(0), ..s }),
{
    lemma_run_four(s, 0x0F, 0x1F, 0x2F, 0xFF);
}

/// From progress 0, the end marker takes the scan to the checksum, and
/// nothing of it becomes payload.
pub proof fn lemma_scan_end_marker(s: Scan)
    requires
        s.state == ScanState::SeekingEnd(0),
    ensures
        scan_run(s, end_marker()) == (Scan { state: ScanState::ReadingChecksum(0), ..s }),
{
    lemma_run_four(s, 0x0E, 0x1E, 0x2E, 0xEE);
}

/// The number that four bytes read after `before` amount to.
pub open spec fn read_four(before: u32, b0: u8, b1: u8, b2: u8, b3: u8) -> u32 {
    spec_push_byte(spec_push_byte(spec_push_byte(spec_push_byte(before, b0), b1), b2), b3)
}

/// The four bytes after the end marker are read as the checksum, and the
/// scan is over.
pub proof fn lemma_scan_checksum(s: Scan, b0: u8, b1: u8, b2: u8, b3: u8)
    requires
        s.state == ScanState::ReadingChecksum(0),
    ensures
        scan_run(s, seq![b0, b1, b2, b3]) == (Scan {
            state: ScanState::ReadingChecksum(4),
            stored: read_four(s.stored, b0, b1, b2, b3),
            ..s
        }),
{
    lemma_run_four(s, b0, b1, b2, b3);
}

/// Four bytes read after the same beginning amount to the same number only
/// if they are the same bytes.
pub proof fn lemma_read_four_injective(before: u32, a: Seq<u8>, b: Seq<u8>)
    requires
        a.len() == 4,
        b.len() == 4,
        read_four(before, a[0], a[1], a[2], a[3]) == read_four(before, b[0], b[1], b[2], b[3]),
    ensures
        a =~= b,
{
    let (a0, a1, a2, a3): (u8, u8, u8, u8) = (a[0], a[1], a[2], a[3]);
    let (b0, b1, b2, b3): (u8, u8, u8, u8) = (b[0], b[1], b[2], b[3]);
    assert(a0 == b0 && a1 == b1 && a2 == b2 && a3 == b3) by (bit_vector)
        requires
            read_four(before, a0, a1, a2, a3) == read_four(before, b0, b1, b2, b3),
    ;
}

/// The search for the end marker at progress 0, with nothing recovered yet.
pub open spec fn seeking_end() -> Scan {
    Scan { state: ScanState::SeekingEnd(0), payload: Seq::empty(), stored: 0 }
}

/// The search for the end marker, started afresh on `payload` alone, has not
/// found the marker within the payload and holds no byte back after its last
/// byte. Only then does the end marker that follows the payload end it.
pub open spec fn scans_cleanly(payload: Seq<u8>) -> bool {
    scan_run(seeking_end(), payload).state == ScanState::SeekingEnd(0)
}

/// While the end marker is sought, every byte taken is either payload or
/// held back as the marker's beginning. Once the marker was found, the
/// payload is shorter than the bytes taken by the marker at least.
pub proof fn lemma_search_accounts_for_bytes(bytes: Seq<u8>)
    ensures
        ({
            let scan: Scan = scan_run(seeking_end(), bytes);
            &&& scan.state.wf()
            &&& !(scan.state is SeekingStart)
            &&& scan.state matches ScanState::SeekingEnd(n) ==> scan.payload + end_marker().take(
                n as int,
            ) == bytes
            &&& scan.state is ReadingChecksum ==> scan.payload.len() + 4 <= bytes.len()
        }),
    decreases bytes.len(),
{
    if bytes.len() > 0 {
        let before: Scan = scan_run(seeking_end(), bytes.drop_last());
        let scan: Scan = scan_run(seeking_end(), bytes);
        lemma_search_accounts_for_bytes(bytes.drop_last());
        match before.state {
            ScanState::SeekingEnd(m) => {
                let held: Seq<u8> = end_marker().take(m as int);
                assert(before.payload + held == bytes.drop_last());
                assert(bytes =~= bytes.drop_last().push(bytes.last()));
                match scan.state {
                    ScanState::SeekingEnd(n) => {
                        if n == 0 {
                            assert(scan.payload + end_marker().take(0) =~= before.payload + held
                                + seq![bytes.last()]);
                            assert(before.payload + held + seq![bytes.last()] =~= (before.payload
                                + held).push(bytes.last()));
                        } else {
                            assert(end_marker().take(n as int) =~= held.push(bytes.last()));
                            assert(scan.payload + end_marker().take(n as int) =~= (before.payload
                                + held).push(bytes.last()));
                        }
                    },
                    _ => {
                        assert(held.len() == 3);
                        assert((before.payload + held).len() == before.payload.len() + 3);
                    },
                }
            },
            _ => {},
        }
    } else {
        assert(seeking_end().payload + end_marker().take(0) =~= bytes);
    }
}

/// What was recovered before a search for the end marker began stays in
/// front of what the search recovers, and the search itself goes the same way.
pub proof fn lemma_search_from(s: Scan, bytes: Seq<u8>)
    requires
        s.state == ScanState::SeekingEnd(0),
    ensures
        ({
            let fresh: Scan = scan_run(seeking_end(), bytes);
            let scan: Scan = scan_run(s, bytes);
            &&& scan.state == fresh.state
            &&& scan.payload == s.payload + fresh.payload
            &&& scan.state is SeekingEnd ==> scan.stored == s.stored
        }),
    decreases bytes.len(),
{
    if bytes.len() > 0 {
        lemma_search_from(s, bytes.drop_last());
        lemma_search_accounts_for_bytes(bytes.drop_last());
        let fresh: Scan = scan_run(seeking_end(), bytes.drop_last());
        let scan: Scan = scan_run(s, bytes.drop_last());
        let next_fresh: Scan = scan_step(fresh, bytes.last());
        let next: Scan = scan_step(scan, bytes.last());
        assert(next.payload =~= s.payload + next_fresh.payload);
    } else {
        assert(s.payload =~= s.payload + seeking_end().payload);
    }
}

/// A payload that is scanned cleanly is recovered whole by the search for
/// the end marker, which is at progress 0 again after it.
pub proof fn lemma_scan_clean_payload(s: Scan, payload: Seq<u8>)
    requires
        s.state == ScanState::SeekingEnd(0),
        scans_cleanly(payload),
    ensures
        scan_run(s, payload) == (Scan {
            state: ScanState::SeekingEnd(0),
            payload: s.payload + payload,
            stored: s.stored,
        }),
{
    lemma_search_from(s, payload);
    lemma_search_accounts_for_bytes(payload);
    let fresh: Scan = scan_run(seeking_end(), payload);
    assert(fresh.payload + end_marker().take(0) =~= fresh.payload);
}

/// Whether `pattern` stands in `bytes` at position `at`.
pub open spec fn occurs_at(bytes: Seq<u8>, pattern: Seq<u8>, at: int) -> bool {
    &&& 0 <= at
    &&& at + pattern.len() <= bytes.len()
    &&& bytes.subrange(at, at + pattern.len()) == pattern
}

/// Whether `pattern` stands somewhere in `bytes`.
pub open spec fn occurs_in(bytes: Seq<u8>, pattern: Seq<u8>) -> bool {
    exists|at: int| occurs_at(bytes, pattern, at)
}

/// While the start marker is sought, the progress is the length of the
/// marker's beginning that the bytes end with; and the search is over only
/// where the marker stands in the bytes.
pub proof fn lemma_start_search(bytes: Seq<u8>)
    ensures
        scan_of(bytes).state matches ScanState::SeekingStart(n) ==> n < 4 && occurs_at(
            bytes,
            start_marker().take(n as int),
            bytes.len() - n,
        ),
        !(scan_of(bytes).state is SeekingStart) ==> occurs_in(bytes, start_marker()),
    decreases bytes.len(),
{
    let marker: Seq<u8> = start_marker();
    let len: int = bytes.len() as int;
    if len > 0 {
        let front: Seq<u8> = bytes.drop_last();
        lemma_start_search(front);
        match scan_of(front).state {
            ScanState::SeekingStart(m) => {
                let held: Seq<u8> = marker.take(m as int);
                assert(front.subrange(len - 1 - m, len - 1) == held);
                match scan_of(bytes).state {
                    ScanState::SeekingStart(n) => {
                        if n > 0 {
                            assert(bytes.subrange(len - n, len) =~= held.push(bytes.last())) by {
                                assert forall|i: int| 0 <= i < m implies bytes.subrange(
                                    len - n,
                                    len,
                                )[i] == held[i] by {
                                    assert(front.subrange(len - 1 - m, len - 1)[i] == front[len - 1
                                        - m + i]);
                                }
                            }
                            assert(marker.take(n as int) =~= held.push(bytes.last()));
                        } else {
                            assert(bytes.subrange(len, len) =~= marker.take(0));
                        }
                    },
                    _ => {
                        assert(bytes.subrange(len - 4, len) =~= marker) by {
                            assert forall|i: int| 0 <= i < 3 implies bytes.subrange(len - 4, len)[i]
                                == marker[i] by {
                                assert(front.subrange(len - 4, len - 1)[i] == front[len - 4 + i]);
                                assert(held[i] == marker[i]);
                            }
                        }
                        assert(occurs_at(bytes, marker, len - 4));
                    },
                }
            },
            _ => {
                let at: int = choose|at: int| occurs_at(front, marker, at);
                assert(bytes.subrange(at, at + 4) =~= front.subrange(at, at + 4));
                assert(occurs_at(bytes, marker, at));
            },
        }
    } else {
        assert(bytes.subrange(0, 0) =~= marker.take(0));
    }
}

/// As long as the start marker has not been seen, nothing has been recovered.
pub proof fn lemma_seeking_start_holds_nothing(bytes: Seq<u8>)
    ensures
        scan_of(bytes).state is SeekingStart ==> scan_of(bytes).payload.len() == 0 && scan_of(
            bytes,
        ).stored == 0,
        scan_of(bytes).state is SeekingEnd ==> scan_of(bytes).stored == 0,
    decreases bytes.len(),
{
    if bytes.len() > 0 {
        lemma_seeking_start_holds_nothing(bytes.drop_last());
    }
}

/// The payload that a scan has recovered is never taken back.
pub proof fn lemma_payload_grows(s: Scan, bytes: Seq<u8>)
    ensures
        s.payload.len() <= scan_run(s, bytes).payload.len(),
    decreases bytes.len(),
{
    if bytes.len() > 0 {
        lemma_payload_grows(s, bytes.drop_last());
    }
}

/// Once the end marker has been found, the payload stays as it is.
pub proof fn lemma_payload_fixed(s: Scan, bytes: Seq<u8>)
    requires
        s.state is ReadingChecksum,
    ensures
        scan_run(s, bytes).state is ReadingChecksum,
        scan_run(s, bytes).payload == s.payload,
    decreases bytes.len(),
{
    if bytes.len() > 0 {
        lemma_payload_fixed(s, bytes.drop_last());
    }
}

/// The empty payload is scanned cleanly.
pub proof fn lemma_clean_empty()
    ensures
        scans_cleanly(Seq::<u8>::empty()),
{
}

/// A byte other than the end marker's first is scanned cleanly.
pub proof fn lemma_clean_byte(byte: u8)
    requires
        byte != end_marker()[0],
    ensures
        scans_cleanly(seq![byte]),
{
    lemma_run_one(seeking_end(), byte);
}

/// A beginning of the end marker, followed by a byte that does not continue
/// the marker, is scanned cleanly: the bytes held back are payload after all.
pub proof fn lemma_clean_false_start(n: int, byte: u8)
    requires
        1 <= n <= 3,
        byte != end_marker()[n],
    ensures
        scans_cleanly(end_marker().take(n).push(byte)),
{
    let s: Scan = seeking_end();
    let s1: Scan = scan_step(s, 0x0E);
    let s2: Scan = scan_step(s1, 0x1E);
    lemma_run_one(s, 0x0E);
    if n == 1 {
        assert(end_marker().take(n).push(byte) =~= seq![0x0Eu8] + seq![byte]);
        lemma_run_concat(s, seq![0x0Eu8], seq![byte]);
        lemma_run_one(s1, byte);
    } else if n == 2 {
        assert(end_marker().take(n).push(byte) =~= seq![0x0Eu8] + seq![0x1Eu8] + seq![byte]);
        lemma_run_concat(s, seq![0x0Eu8], seq![0x1Eu8]);
        lemma_run_concat(s, seq![0x0Eu8] + seq![0x1Eu8], seq![byte]);
        lemma_run_one(s1, 0x1E);
        lemma_run_one(s2, byte);
    } else {
        assert(end_marker().take(n).push(byte) =~= seq![0x0Eu8, 0x1Eu8, 0x2Eu8, byte]);
        lemma_run_four(s, 0x0E, 0x1E, 0x2E, byte);
    }
}

/// Two payloads that are scanned cleanly are so one after the other, too.
pub proof fn lemma_clean_concat(first: Seq<u8>, second: Seq<u8>)
    requires
        scans_cleanly(first),
        scans_cleanly(second),
    ensures
        scans_cleanly(first + second),
{
    lemma_run_concat(seeking_end(), first, second);
    lemma_search_from(scan_run(seeking_end(), first), second);
}

/// A payload in which the first byte of the end marker does not occur is
/// scanned cleanly.
pub proof fn lemma_clean_without_marker_lead(payload: Seq<u8>)
    requires
        forall|i: int| 0 <= i < payload.len() ==> payload[i] != end_marker()[0],
    ensures
        scans_cleanly(payload),
    decreases payload.len(),
{
    if payload.len() == 0 {
        lemma_clean_empty();
        assert(payload =~= Seq::<u8>::empty());
    } else {
        lemma_clean_without_marker_lead(payload.drop_last());
        lemma_clean_byte(payload.last());
        lemma_clean_concat(payload.drop_last(), seq![payload.last()]);
        assert(payload =~= payload.drop_last() + seq![payload.last()]);
    }
}

/// An incremental scanner: it is fed the recovered bytes one at a time and
/// collects the payload bytes as soon as they are confirmed.
pub struct Scanner {
    state: ScanState,
    stored: u32,
    payload: Vec<u8>,
}

impl View for Scanner {
    type V = Scan;

    closed spec fn view(&self) -> Scan {
        Scan { state: self.state, payload: self.payload@, stored: self.stored }
    }
}

impl Scanner {
    /// A scanner that has seen nothing yet.
    pub fn new() -> (scanner: Self)
        ensures
            scanner@ == scan_start(),
    {
        Scanner { state: ScanState::SeekingStart(0), stored: 0, payload: Vec::new() }
    }

    /// Where the scan stands.
    pub fn state(&self) -> (state: ScanState)
        ensures
            state == self@.state,
    {
        self.state
    }

    /// Whether the scan is over: start marker, end marker and checksum were seen.
    pub fn is_terminal(&self) -> (done: bool)
        ensures
            done == self@.state.is_terminal(),
    {
        match self.state {
            ScanState::ReadingChecksum(n) => n == 4,
            _ => false,
        }
    }

    /// The checksum bytes read so far, as a big-endian number.
    pub fn stored_checksum(&self) -> (stored: u32)
        ensures
            stored == self@.stored,
    {
        self.stored
    }

    /// The payload bytes confirmed so far.
    pub fn payload(&self) -> (payload: &Vec<u8>)
        ensures
            payload@ == self@.payload,
    {
        &self.payload
    }

    /// Gives up the scanner for the payload bytes confirmed so far.
    pub fn into_payload(self) -> (payload: Vec<u8>)
        ensures
            payload@ == self@.payload,
    {
        self.payload
    }

    /// Takes the next recovered byte.
    pub fn feed(&mut self, byte: u8)
        requires
            old(self)@.state.wf(),
        ensures
            final(self)@ == scan_step(old(self)@, byte),
            final(self)@.state.wf(),
    {
        match self.state {
            ScanState::SeekingStart(n) => {
                if byte == start_marker_byte(n as usize) {
                    if n == 3 {
                        self.state = ScanState::SeekingEnd(0);
                    } else {
                        self.state = ScanState::SeekingStart(n + 1);
                    }
                } else {
                    self.state = ScanState::SeekingStart(0);
                }
            },
            ScanState::SeekingEnd(n) => {
                if byte == end_marker_byte(n as usize) {
                    if n == 3 {
                        self.state = ScanState::ReadingChecksum(0);
                    } else {
                        self.state = ScanState::SeekingEnd(n + 1);
                    }
                } else {
                    let ghost before: Seq<u8> = self.payload@;
                    let mut i: u8 = 0;
                    while i < n
                        invariant
                            i <= n < 4,
                            self.stored == old(self).stored,
                            self.payload@ == before + end_marker().take(i as int),
                        decreases n - i,
                    {
                        self.payload.push(end_marker_byte(i as usize));
                        assert(end_marker().take(i as int + 1) =~= end_marker().take(i as int).push(
                            end_marker()[i as int],
                        ));
                        i = i + 1;
                    }
                    self.payload.push(byte);
                    self.state = ScanState::SeekingEnd(0);
                    assert(self.payload@ =~= before + end_marker().take(n as int) + seq![byte]);
                }
            },
            ScanState::ReadingChecksum(n) => {
                if n < 4 {
                    self.stored = push_byte(self.stored, byte);
                    self.state = ScanState::ReadingChecksum(n + 1);
                }
            },
        }
    }
}

} // verus!
