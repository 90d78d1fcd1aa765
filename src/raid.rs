use crate::hamming_encoding::{
    bit_vector_from_bytes, bit_vector_to_bytes, bits_of_bytes, bits_value, byte_bit, decode, encode,
    error_position, flip, is_codeword_for, is_correctable, lemma_byte_codeword_len,
    lemma_byte_value, lemma_round_trip, lemma_single_error_corrected, lemma_word_payload_len,
    overall_parity, payload, two_pow, Bit,
    HammingDecodeResult,
};
use vstd::prelude::*;

verus! {

/// Number of virtual disks: the overall-parity disk, eight data disks and
/// four Hamming-parity disks. Disk `d` stores bit `d` of every codeword.
pub const DISK_COUNT: usize = 13;

/// Payload bits per codeword: one byte.
const DATA_BITS: usize = 8;

/// The kind of a stored file. Content is always kept as raw bytes.
#[derive(Clone, Copy, Debug, PartialEq, Eq, Structural)]
pub enum FileType {
    Text,
}

/// A directory entry: the file occupies byte offsets `start_pos..end_pos`
/// of the array.
pub struct File {
    pub name: String,
    pub start_pos: usize,
    pub end_pos: usize,
    pub size: usize,
    pub file_type: FileType,
}

#[derive(Debug)]
pub enum FileWriteResult {
    Success,
    NotEnoughSpace,
}

#[derive(Debug)]
pub enum FileReadResult {
    NotFound,
    DisksCorrupted,
    Success(FileType, Vec<u8>),
}

/// What reading one byte offset found.
enum ReadData<T> {
    ValidData(T),
    /// The byte is good after inverting bit `bit_number` of disk `disk_number`.
    CorruptedData { data: T, disk_number: usize, bit_number: usize },
    InvalidData,
}

/// A RAID-II array: every byte written is encoded as a thirteen-bit extended
/// Hamming codeword whose bits go one to each disk.
pub struct RaidII {
    disks: Vec<Vec<Bit>>,
    data_disks: usize,
    hamming_disks: usize,
    total_disks: usize,
    total_capacity: usize,
    disk_size: usize,
    free_space: usize,
    files: Vec<File>,
}

/// The byte spelled by the payload of `c`.
pub open spec fn payload_byte(c: Seq<bool>) -> u8 {
    bits_value(payload(c)) as u8
}

/// The codeword that the decoder makes of `c`: with odd overall parity the
/// located bit is inverted back.
pub open spec fn corrected(c: Seq<bool>) -> Seq<bool> {
    if overall_parity(c) {
        flip(c, error_position(c) as int)
    } else {
        c
    }
}

/// The index of the first file named `name`, if any.
pub open spec fn lookup(files: Seq<File>, name: Seq<char>) -> Option<int>
    decreases files.len(),
{
    if files.len() == 0 {
        None
    } else {
        match lookup(files.drop_last(), name) {
            Some(i) => Some(i),
            None => if files.last().name@ == name {
                Some(files.len() - 1)
            } else {
                None
            },
        }
    }
}

proof fn lemma_lookup_prefix(files: Seq<File>, name: Seq<char>, j: int, i: int)
    requires
        0 <= j <= files.len(),
        lookup(files.take(j), name) == Some(i),
    ensures
        lookup(files, name) == Some(i),
    decreases files.len(),
{
    if j == files.len() {
        assert(files.take(j) == files);
    } else {
        assert(files.drop_last().take(j) == files.take(j));
        lemma_lookup_prefix(files.drop_last(), name, j, i);
    }
}

impl RaidII {
    /// Bytes per disk that the array was made with.
    pub closed spec fn size(&self) -> nat {
        self.disk_size as nat
    }

    /// Total byte capacity: `disk_size` times the number of disks.
    pub closed spec fn capacity(&self) -> nat {
        self.total_capacity as nat
    }

    /// Byte slots not yet written.
    pub closed spec fn free(&self) -> nat {
        self.free_space as nat
    }

    /// Byte offsets written so far; every disk holds this many bits.
    pub closed spec fn used(&self) -> nat {
        (self.total_capacity - self.free_space) as nat
    }

    /// The bits stored on disk `d` (0-based).
    pub closed spec fn disk(&self, d: int) -> Seq<bool> {
        self.disks@[d]@
    }

    /// The codeword stored at byte offset `o`: bit `d` comes from disk `d`.
    pub closed spec fn codeword_at(&self, o: int) -> Seq<bool> {
        Seq::new(DISK_COUNT as nat, |d: int| self.disks@[d]@[o])
    }

    /// The file directory, in order of writing.
    pub closed spec fn directory(&self) -> Seq<File> {
        self.files@
    }

    /// The array's invariant: thirteen disks of equal length, as long as the
    /// bytes written, and every file inside the written range.
    pub closed spec fn wf(&self) -> bool {
        &&& self.disks@.len() == DISK_COUNT
        &&& self.data_disks == DATA_BITS
        &&& self.hamming_disks == 4
        &&& self.total_disks == DISK_COUNT
        &&& self.total_capacity == self.disk_size * DISK_COUNT
        &&& self.free_space <= self.total_capacity
        &&& forall|d: int| 0 <= d < DISK_COUNT ==> #[trigger] self.disks@[d]@.len() == self.used()
        &&& forall|i: int|
            0 <= i < self.files@.len() ==> {
                let f = #[trigger] self.files@[i];
                &&& f.start_pos <= f.end_pos <= self.used()
                &&& f.end_pos - f.start_pos == f.size
            }
    }

    /// How the views of a well-formed array fit together: the bytes written
    /// are the capacity less the free space, every disk holds one bit per
    /// byte written, and bit `d` of the codeword at offset `o` is bit `o` of
    /// disk `d`.
    pub proof fn lemma_views(&self)
        requires
            self.wf(),
        ensures
            self.used() == self.capacity() - self.free(),
            forall|d: int| 0 <= d < DISK_COUNT ==> #[trigger] self.disk(d).len() == self.used(),
            forall|o: int|
                0 <= o < self.used() ==> (#[trigger] self.codeword_at(o)).len() == DISK_COUNT,
            forall|o: int, d: int|
                0 <= o < self.used() && 0 <= d < DISK_COUNT ==> #[trigger] self.codeword_at(o)[d]
                    == self.disk(d)[o],
    {
    }

    /// Makes an empty array of thirteen disks holding `disk_size` bytes each.
    pub fn from_data_capacity(disk_size: usize) -> (raid: Self)
        requires
            disk_size * DISK_COUNT <= usize::MAX,
        ensures
            raid.wf(),
            raid.size() == disk_size,
            raid.capacity() == disk_size * DISK_COUNT,
            raid.free() == raid.capacity(),
            raid.used() == 0,
            raid.directory().len() == 0,
    {
        let capacity: usize = DATA_BITS;
        let mut hamming_disks: usize = 0;
        let mut mask: usize = 1;
        while capacity + hamming_disks + 1 > mask
            invariant
                capacity == 8,
                mask == two_pow(hamming_disks as nat),
                hamming_disks <= 4,
                hamming_disks == 0 || two_pow((hamming_disks - 1) as nat) < capacity
                    + hamming_disks,
            decreases 4 - hamming_disks,
        {
            proof {
                lemma_byte_powers();
            }
            hamming_disks = hamming_disks + 1;
            mask = mask * 2;
        }
        proof {
            lemma_byte_parity_bits(hamming_disks as nat);
        }
        let total_disks = 1 + capacity + hamming_disks;
        let mut disks: Vec<Vec<Bit>> = Vec::with_capacity(total_disks);
        let mut d: usize = 0;
        while d < total_disks
            invariant
                total_disks == DISK_COUNT,
                d <= total_disks,
                disks@.len() == d,
                forall|e: int| 0 <= e < d ==> (#[trigger] disks@[e])@.len() == 0,
            decreases total_disks - d,
        {
            disks.push(Vec::new());
            d = d + 1;
        }
        RaidII {
            disks,
            data_disks: capacity,
            hamming_disks,
            total_disks,
            total_capacity: disk_size * total_disks,
            disk_size,
            free_space: disk_size * total_disks,
            files: Vec::new(),
        }
    }

    /// Reads the codeword at byte offset `position` and decodes it.
    fn read_byte(&self, position: usize) -> (read: ReadData<u8>)
        requires
            self.wf(),
            position < self.used(),
        ensures
            ({
                let c = self.codeword_at(position as int);
                match read {
                    ReadData::ValidData(byte) => {
                        &&& !overall_parity(c)
                        &&& error_position(c) == 0
                        &&& byte == payload_byte(c)
                    },
                    ReadData::CorruptedData { data, disk_number, bit_number } => {
                        &&& overall_parity(c)
                        &&& disk_number == error_position(c)
                        &&& disk_number < DISK_COUNT
                        &&& bit_number == position
                        &&& data == payload_byte(flip(c, disk_number as int))
                    },
                    ReadData::InvalidData => !is_correctable(c),
                }
            }),
    {
        let ghost c = self.codeword_at(position as int);
        let mut bits: Vec<Bit> = Vec::with_capacity(self.total_disks);
        let mut d: usize = 0;
        while d < DISK_COUNT
            invariant
                self.wf(),
                position < self.used(),
                d <= DISK_COUNT,
                bits@ == c.subrange(0, d as int),
                c == self.codeword_at(position as int),
            decreases DISK_COUNT - d,
        {
            assert(self.disks@[d as int]@.len() == self.used());
            bits.push(self.disks[d][position]);
            assert(bits@ == c.subrange(0, d + 1));
            d = d + 1;
        }
        assert(bits@ == c);
        match decode(&mut bits) {
            HammingDecodeResult::NoError { decoded_bits } => {
                proof {
                    lemma_word_payload_len(c);
                    assert(decoded_bits@.subrange(0, 8) == decoded_bits@);
                }
                let bytes = bit_vector_to_bytes(&decoded_bits);
                if bytes.len() == 1 {
                    ReadData::ValidData(bytes[0])
                } else {
                    ReadData::InvalidData
                }
            },
            HammingDecodeResult::OneError { decoded_bits, position: invalid_bit } => {
                proof {
                    lemma_word_payload_len(flip(c, invalid_bit as int));
                    assert(decoded_bits@.subrange(0, 8) == decoded_bits@);
                }
                let bytes = bit_vector_to_bytes(&decoded_bits);
                if bytes.len() == 1 {
                    ReadData::CorruptedData {
                        data: bytes[0],
                        disk_number: invalid_bit,
                        bit_number: position,
                    }
                } else {
                    ReadData::InvalidData
                }
            },
            HammingDecodeResult::DoubleError => ReadData::InvalidData,
        }
    }

    /// Reads the first file named `name`. Each byte's codeword is decoded; a
    /// single wrong bit is repaired on its disk as it is found. The read
    /// fails as a whole at the first codeword that cannot be corrected.
    pub fn read_file(&mut self, name: &String) -> (result: FileReadResult)
        requires
            old(self).wf(),
        ensures
            final(self).wf(),
            final(self).size() == old(self).size(),
            final(self).capacity() == old(self).capacity(),
            final(self).free() == old(self).free(),
            final(self).directory() == old(self).directory(),
            match lookup(old(self).directory(), name@) {
                None => result is NotFound && *final(self) == *old(self),
                Some(i) => {
                    let f = old(self).directory()[i];
                    &&& ((forall|o: int|
                        f.start_pos <= o < f.end_pos ==> !overall_parity(
                            #[trigger] old(self).codeword_at(o),
                        )) ==> *final(self) == *old(self))
                    &&& match result {
                        FileReadResult::Success(file_type, bytes) => {
                            &&& file_type == f.file_type
                            &&& all_correctable(*old(self), f.start_pos as int, f.end_pos as int)
                            &&& bytes@ == Seq::new(
                                f.size as nat,
                                |k: int|
                                    payload_byte(
                                        corrected(old(self).codeword_at(f.start_pos + k)),
                                    ),
                            )
                            &&& healed(*old(self), *final(self), f.start_pos as int, f.end_pos as int)
                        },
                        FileReadResult::DisksCorrupted => exists|o: int|
                            f.start_pos <= o < f.end_pos && !is_correctable(
                                #[trigger] old(self).codeword_at(o),
                            ) && all_correctable(*old(self), f.start_pos as int, o) && healed(
                                *old(self),
                                *final(self),
                                f.start_pos as int,
                                o,
                            ),
                        FileReadResult::NotFound => false,
                    }
                },
            },
    {
        let mut index: usize = 0;
        while index < self.files.len() && !(self.files[index].name == *name)
            invariant
                self.wf(),
                *self == *old(self),
                index <= self.files@.len(),
                lookup(self.files@.take(index as int), name@) == None::<int>,
            decreases self.files@.len() - index,
        {
            assert(self.files@.take(index + 1).drop_last() == self.files@.take(index as int));
            index = index + 1;
        }
        if index == self.files.len() {
            assert(self.files@.take(index as int) == self.files@);
            return FileReadResult::NotFound;
        }
        proof {
            assert(self.files@.take(index + 1).drop_last() == self.files@.take(index as int));
            lemma_lookup_prefix(self.files@, name@, index + 1, index as int);
        }
        let start = self.files[index].start_pos;
        let end = self.files[index].end_pos;
        let size = self.files[index].size;
        let file_type = self.files[index].file_type;
        let mut bytes: Vec<u8> = Vec::with_capacity(size);
        let mut position = start;
        let mut invalid_data = false;
        let ghost mut repaired = false;
        while position < end && !invalid_data
            invariant
                self.wf(),
                self.disk_size == old(self).disk_size,
                self.total_capacity == old(self).total_capacity,
                self.free_space == old(self).free_space,
                self.files == old(self).files,
                start <= position <= end <= old(self).used(),
                all_correctable(*old(self), start as int, position as int),
                healed(*old(self), *self, start as int, position as int),
                bytes@ == Seq::new(
                    (position - start) as nat,
                    |k: int| payload_byte(corrected(old(self).codeword_at(start + k))),
                ),
                !repaired ==> *self == *old(self),
                repaired ==> exists|o: int|
                    start <= o < position && overall_parity(#[trigger] old(self).codeword_at(o)),
                invalid_data ==> position < end && !is_correctable(
                    old(self).codeword_at(position as int),
                ),
            decreases end - position + if invalid_data {
                0int
            } else {
                1
            },
        {
            let ghost before = *self;
            assert(self.codeword_at(position as int) == old(self).codeword_at(position as int));
            match self.read_byte(position) {
                ReadData::ValidData(byte) => {
                    bytes.push(byte);
                    position = position + 1;
                },
                ReadData::CorruptedData { data, disk_number, bit_number } => {
                    // Restore the wrong bit
                    assert(self.disks@[disk_number as int]@.len() == self.used());
                    let wrong = self.disks[disk_number][bit_number];
                    self.disks[disk_number][bit_number] = !wrong;
                    proof {
                        assert forall|d: int| 0 <= d < DISK_COUNT implies #[trigger] self.disks@[d]@.len() == self.used() by {
                            assert(before.disks@[d]@.len() == self.used());
                        }
                        assert forall|o: int| 0 <= o < old(self).used() implies #[trigger] self.codeword_at(o) == if o == position {
                            flip(before.codeword_at(o), disk_number as int)
                        } else {
                            before.codeword_at(o)
                        } by {
                        }
                    }
                    proof {
                        assert(overall_parity(old(self).codeword_at(position as int)));
                        repaired = true;
                    }
                    bytes.push(data);
                    position = position + 1;
                },
                ReadData::InvalidData => {
                    invalid_data = true;
                },
            }
        }
        if invalid_data {
            FileReadResult::DisksCorrupted
        } else {
            FileReadResult::Success(file_type, bytes)
        }
    }

    /// Inverts every bit of disk `disk_number`, counted from 1 (1 is the
    /// overall-parity disk, 2 to 9 the data disks, 10 to 13 the Hamming
    /// disks). Returns whether the number named a disk.
    pub fn corrupt_disk(&mut self, disk_number: usize) -> (in_range: bool)
        requires
            old(self).wf(),
        ensures
            final(self).wf(),
            in_range == (1 <= disk_number <= DISK_COUNT),
            !in_range ==> *final(self) == *old(self),
            final(self).size() == old(self).size(),
            final(self).capacity() == old(self).capacity(),
            final(self).free() == old(self).free(),
            final(self).directory() == old(self).directory(),
            forall|d: int|
                0 <= d < DISK_COUNT ==> #[trigger] final(self).disk(d) == if in_range && d
                    == disk_number - 1 {
                    inverted(old(self).disk(d))
                } else {
                    old(self).disk(d)
                },
    {
        if 1 <= disk_number && disk_number <= self.total_disks {
            Self::inner_corrupt_disk(&mut self.disks[disk_number - 1]);
            true
        } else {
            false
        }
    }

    fn inner_corrupt_disk(disk: &mut Vec<Bit>)
        ensures
            final(disk)@ == inverted(old(disk)@),
    {
        let mut i: usize = 0;
        while i < disk.len()
            invariant
                i <= disk@.len() == old(disk)@.len(),
                forall|j: int| 0 <= j < i ==> disk@[j] == !old(disk)@[j],
                forall|j: int| i <= j < disk@.len() ==> disk@[j] == old(disk)@[j],
            decreases disk@.len() - i,
        {
            let bit = disk[i];
            disk[i] = !bit;
            i = i + 1;
        }
        assert(disk@ == inverted(old(disk)@));
    }

    /// Bytes per disk that the array was made with.
    pub fn disk_size(&self) -> (r: usize)
        ensures
            r == self.size(),
    {
        self.disk_size
    }

    /// Total byte capacity of the array.
    pub fn total_capacity(&self) -> (r: usize)
        ensures
            r == self.capacity(),
    {
        self.total_capacity
    }

    /// Byte slots not yet written.
    pub fn free_space(&self) -> (r: usize)
        ensures
            r == self.free(),
    {
        self.free_space
    }

    /// Number of files in the directory.
    pub fn file_count(&self) -> (r: usize)
        ensures
            r == self.directory().len(),
    {
        self.files.len()
    }

    /// Number of disks in the array.
    pub fn total_disks(&self) -> (r: usize)
        requires
            self.wf(),
        ensures
            r == DISK_COUNT,
    {
        self.total_disks
    }

    /// Number of data disks, one per payload bit.
    pub fn data_disk_count(&self) -> (r: usize)
        requires
            self.wf(),
        ensures
            r == 8,
    {
        self.data_disks
    }

    /// Number of Hamming-parity disks.
    pub fn hamming_disk_count(&self) -> (r: usize)
        requires
            self.wf(),
        ensures
            r == 4,
    {
        self.hamming_disks
    }

    /// Encodes `byte` and appends bit `d` of its codeword to disk `d`.
    fn write_byte(&mut self, byte: u8)
        requires
            old(self).disks@.len() == DISK_COUNT,
            forall|d: int| 0 <= d < DISK_COUNT ==> #[trigger] old(self).disks@[d]@.len() < usize::MAX,
        ensures
            final(self).disks@.len() == DISK_COUNT,
            forall|d: int|
                0 <= d < DISK_COUNT ==> (#[trigger] final(self).disks@[d])@.drop_last() == old(
                    self,
                ).disks@[d]@ && final(self).disks@[d]@.len() == old(self).disks@[d]@.len() + 1,
            is_codeword_for(
                bits_of_bytes(seq![byte]),
                Seq::new(DISK_COUNT as nat, |d: int| final(self).disks@[d]@.last()),
            ),
            final(self).data_disks == old(self).data_disks,
            final(self).hamming_disks == old(self).hamming_disks,
            final(self).total_disks == old(self).total_disks,
            final(self).total_capacity == old(self).total_capacity,
            final(self).disk_size == old(self).disk_size,
            final(self).free_space == old(self).free_space,
            final(self).files == old(self).files,
    {
        let byte_vector = vec![byte];
        assert(byte_vector@ == seq![byte]);
        let bits = bit_vector_from_bytes(&byte_vector);
        let encoded_bits = encode(&bits);
        proof {
            lemma_byte_codeword_len(bits@, encoded_bits@);
        }
        let mut written_bit_counter: usize = 0;
        while written_bit_counter < DISK_COUNT
            invariant
                encoded_bits@.len() == DISK_COUNT,
                self.disks@.len() == DISK_COUNT,
                written_bit_counter <= DISK_COUNT,
                forall|d: int|
                    0 <= d < written_bit_counter ==> #[trigger] self.disks@[d]@ == old(
                        self,
                    ).disks@[d]@.push(encoded_bits@[d]),
                forall|d: int|
                    written_bit_counter <= d < DISK_COUNT ==> #[trigger] self.disks@[d]@ == old(
                        self,
                    ).disks@[d]@,
                self.data_disks == old(self).data_disks,
                self.hamming_disks == old(self).hamming_disks,
                self.total_disks == old(self).total_disks,
                self.total_capacity == old(self).total_capacity,
                self.disk_size == old(self).disk_size,
                self.free_space == old(self).free_space,
                self.files == old(self).files,
            decreases DISK_COUNT - written_bit_counter,
        {
            self.disks[written_bit_counter].push(encoded_bits[written_bit_counter]);
            written_bit_counter = written_bit_counter + 1;
        }
        assert(Seq::new(DISK_COUNT as nat, |d: int| self.disks@[d]@.last()) == encoded_bits@);
        assert forall|d: int| 0 <= d < DISK_COUNT implies (#[trigger] self.disks@[d])@.drop_last()
            == old(self).disks@[d]@ by {
            assert(self.disks@[d]@ == old(self).disks@[d]@.push(encoded_bits@[d]));
        }
    }

    /// Stores `data` as a new file named `name`, one codeword per byte striped
    /// over the disks. Fails, changing nothing, unless the free space is
    /// strictly greater than the length of `data`.
    pub fn write_file(&mut self, data: &Vec<u8>, file_type: FileType, name: &String) -> (result:
        FileWriteResult)
        requires
            old(self).wf(),
        ensures
            final(self).wf(),
            (result is Success) == (old(self).free() > data@.len()),
            result is NotEnoughSpace ==> *final(self) == *old(self),
            result is Success ==> {
                &&& final(self).size() == old(self).size()
                &&& final(self).capacity() == old(self).capacity()
                &&& final(self).free() == old(self).free() - data@.len()
                &&& final(self).used() == old(self).used() + data@.len()
                &&& final(self).directory() == old(self).directory().push(
                    (File {
                        name: *name,
                        start_pos: old(self).used() as usize,
                        end_pos: (old(self).used() + data@.len()) as usize,
                        size: data@.len() as usize,
                        file_type,
                    }),
                )
                &&& forall|d: int|
                    0 <= d < DISK_COUNT ==> (#[trigger] final(self).disk(d)).subrange(
                        0,
                        old(self).used() as int,
                    ) == old(self).disk(d)
                &&& forall|i: int|
                    0 <= i < data@.len() ==> is_codeword_for(
                        bits_of_bytes(seq![data@[i]]),
                        #[trigger] final(self).codeword_at(old(self).used() + i),
                    )
            },
    {
        match file_type {
            FileType::Text => {
                if self.free_space > data.len() {
                    let ghost used0 = self.used();
                    let mut i: usize = 0;
                    while i < data.len()
                        invariant
                            self.disks@.len() == DISK_COUNT,
                            i <= data@.len() < old(self).free(),
                            used0 == old(self).used(),
                            old(self).wf(),
                            forall|d: int|
                                0 <= d < DISK_COUNT ==> (#[trigger] self.disks@[d])@.len()
                                    == used0 + i,
                            forall|d: int|
                                0 <= d < DISK_COUNT ==> (#[trigger] self.disks@[d])@.subrange(
                                    0,
                                    used0 as int,
                                ) == old(self).disks@[d]@,
                            forall|j: int|
                                0 <= j < i ==> is_codeword_for(
                                    bits_of_bytes(seq![data@[j]]),
                                    #[trigger] self.codeword_at(used0 + j),
                                ),
                            self.data_disks == old(self).data_disks,
                            self.hamming_disks == old(self).hamming_disks,
                            self.total_disks == old(self).total_disks,
                            self.total_capacity == old(self).total_capacity,
                            self.disk_size == old(self).disk_size,
                            self.free_space == old(self).free_space,
                            self.files == old(self).files,
                        decreases data@.len() - i,
                    {
                        let ghost prev = self.disks@;
                        let ghost prev_self = *self;
                        assert(forall|d: int|
                            0 <= d < DISK_COUNT ==> (#[trigger] self.disks@[d])@.len() < usize::MAX);
                        self.write_byte(data[i]);
                        proof {
                            assert forall|d: int| 0 <= d < DISK_COUNT implies (#[trigger] self.disks@[d])@.subrange(
                                0,
                                used0 as int,
                            ) == old(self).disks@[d]@ by {
                                assert(self.disks@[d]@.subrange(0, used0 as int) == prev[d]@.subrange(0, used0 as int));
                            }
                            assert forall|j: int| 0 <= j < i implies is_codeword_for(
                                bits_of_bytes(seq![data@[j]]),
                                #[trigger] self.codeword_at(used0 + j),
                            ) by {
                                assert(self.codeword_at(used0 + j) == prev_self.codeword_at(used0 + j));
                            }
                            assert(self.codeword_at(used0 + i) == Seq::new(
                                DISK_COUNT as nat,
                                |d: int| self.disks@[d]@.last(),
                            ));
                        }
                        i = i + 1;
                    }
                    let ghost written = *self;
                    let file = File {
                        name: name.clone(),
                        start_pos: self.total_capacity - self.free_space,
                        end_pos: self.total_capacity - self.free_space + data.len(),
                        size: data.len(),
                        file_type,
                    };
                    self.free_space = self.free_space - data.len();
                    self.files.push(file);
                    proof {
                        assert forall|d: int| 0 <= d < DISK_COUNT implies (#[trigger] self.disk(
                            d,
                        )).subrange(0, old(self).used() as int) == old(self).disk(d) by {
                            assert(self.disks@[d]@.subrange(0, used0 as int) == old(self).disks@[d]@);
                        }
                        assert forall|d: int| 0 <= d < DISK_COUNT implies #[trigger] self.disks@[d]@.len() == self.used() by {
                            assert(self.disks@[d]@.len() == used0 + data@.len());
                        }
                        assert forall|k: int| 0 <= k < self.files@.len() implies {
                            let f = #[trigger] self.files@[k];
                            &&& f.start_pos <= f.end_pos <= self.used()
                            &&& f.end_pos - f.start_pos == f.size
                        } by {
                            if k < old(self).files@.len() {
                                assert(self.files@[k] == old(self).files@[k]);
                            }
                        }
                        assert(self.used() == old(self).used() + data@.len());
                        assert(self.directory() == old(self).directory().push(
                            (File {
                                name: *name,
                                start_pos: old(self).used() as usize,
                                end_pos: (old(self).used() + data@.len()) as usize,
                                size: data@.len() as usize,
                                file_type,
                            }),
                        ));
                        assert forall|j: int|
                            0 <= j < data@.len() implies is_codeword_for(
                                bits_of_bytes(seq![data@[j]]),
                                #[trigger] self.codeword_at(old(self).used() + j),
                            ) by {
                            assert(self.codeword_at(used0 + j) == written.codeword_at(used0 + j));
                        }
                    }
                    FileWriteResult::Success
                } else {
                    FileWriteResult::NotEnoughSpace
                }
            },
        }
    }
}

/// Every bit of `s` inverted.
pub open spec fn inverted(s: Seq<bool>) -> Seq<bool> {
    Seq::new(s.len(), |i: int| !s[i])
}

/// Every codeword at offsets `lo..hi` of `raid` can be corrected.
pub open spec fn all_correctable(raid: RaidII, lo: int, hi: int) -> bool {
    forall|o: int| lo <= o < hi ==> is_correctable(#[trigger] raid.codeword_at(o))
}

/// `after` holds the codewords of `before`, corrected at offsets `lo..hi`
/// and unchanged elsewhere.
pub open spec fn healed(before: RaidII, after: RaidII, lo: int, hi: int) -> bool {
    &&& after.used() == before.used()
    &&& forall|o: int|
        0 <= o < before.used() ==> #[trigger] after.codeword_at(o) == if lo <= o < hi {
            corrected(before.codeword_at(o))
        } else {
            before.codeword_at(o)
        }
}

/// The codeword of a byte reads back as that byte, and still does after any
/// one of its bits is inverted: the decoder restores the codeword itself.
pub proof fn lemma_stored_byte_recovered(byte: u8, c: Seq<bool>, p: int)
    requires
        is_codeword_for(bits_of_bytes(seq![byte]), c),
        0 <= p < c.len(),
    ensures
        is_correctable(c),
        corrected(c) == c,
        payload_byte(c) == byte,
        is_correctable(flip(c, p)),
        corrected(flip(c, p)) == c,
{
    let data = bits_of_bytes(seq![byte]);
    lemma_round_trip(data, c);
    lemma_single_error_corrected(data, c, p);
    assert(data == Seq::new(8, |j: int| byte_bit(byte, j)));
    lemma_byte_value(byte);
}

proof fn lemma_byte_powers()
    ensures
        two_pow(0) == 1,
        two_pow(1) == 2,
        two_pow(2) == 4,
        two_pow(3) == 8,
        two_pow(4) == 16,
{
    assert(two_pow(0) == 1);
    assert(two_pow(1) == 2);
    assert(two_pow(2) == 4);
    assert(two_pow(3) == 8);
}

/// A byte takes four Hamming parity bits.
proof fn lemma_byte_parity_bits(r: nat)
    requires
        r <= 4,
        8 + r + 1 <= two_pow(r),
    ensures
        r == 4,
{
    lemma_byte_powers();
}

} // verus!
