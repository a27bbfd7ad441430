//! The receiving side: how packets become files again.
//!
//! Under RaptorQ a receiver keeps, per file, the packets received so far;
//! once a file has as many packets as it has source packets, they are decoded
//! once, and a file that was rebuilt is handed out to be written and ignored
//! from then on. The decisions are made here; reading the network and writing
//! files stay outside.
pub mod merge;
pub mod models;
pub mod raptor_vec;

use vstd::prelude::*;
use crate::packet::PacketQ;
use crate::send::raptor_q::is_file_packets_q;
use crate::rq::{
    rq_config_decodable, rq_decoded, rq_decoder_config, rq_decoder_decode, rq_decoder_new,
    rq_decoder_received, rq_encoded_packets, rq_is_source_packet, rq_object_info, rq_packet_fits,
    config_decodable, packet_fits,
};
use crate::recv::raptor_vec::clone_segments;

verus! {

/// The first answer of a decoder that is given `fed` in order from position
/// `m` on, or `None` if none of them completes the object.
pub open spec fn first_decoded(config: Seq<u8>, fed: Seq<Seq<u8>>, m: nat) -> Option<Seq<u8>>
    decreases fed.len() - m,
{
    if m >= fed.len() {
        None
    } else {
        match rq_decoded(config, fed.take((m + 1) as int)) {
            Some(v) => Some(v),
            None => first_decoded(config, fed, m + 1),
        }
    }
}

/// What decoding a file's packets gives: they are given to a fresh decoder
/// last received first, until it answers with the object.
pub open spec fn spec_decode_packets(config: Seq<u8>, data: Seq<Seq<u8>>) -> Option<Seq<u8>> {
    first_decoded(config, data.reverse(), 0)
}

/// The bytes of each buffer.
pub open spec fn byte_views(v: Seq<Vec<u8>>) -> Seq<Seq<u8>> {
    v.map_values(|d: Vec<u8>| d@)
}

/// The bytes of an optional buffer.
pub open spec fn bytes_of(o: Option<Vec<u8>>) -> Option<Seq<u8>> {
    match o {
        Some(v) => Some(v@),
        None => None,
    }
}

/// Every packet fits the information.
pub open spec fn all_fit(config: Seq<u8>, data: Seq<Seq<u8>>) -> bool {
    forall|i: int| 0 <= i < data.len() ==> rq_packet_fits(config, #[trigger] data[i])
}

/// Every packet is one that an encoder of `object` made.
pub open spec fn all_encoded_from(data: Seq<Seq<u8>>, object: Seq<u8>, mtu: u16, repair: u32) -> bool {
    forall|i: int| 0 <= i < data.len() ==> rq_encoded_packets(object, mtu, repair).contains(#[trigger] data[i])
}

/// Every source packet that an encoder of `object` makes is among the packets.
pub open spec fn source_packets_present(data: Seq<Seq<u8>>, object: Seq<u8>, mtu: u16, repair: u32) -> bool {
    forall|q: Seq<u8>| rq_encoded_packets(object, mtu, repair).contains(q)
        && rq_is_source_packet(rq_object_info(object, mtu), q) ==> #[trigger] data.contains(q)
}

/// The packets of a file, in any order and with any of them lost or
/// repeated, as the receiver may get them from one encoder of `object`, with
/// every source packet among them.
pub open spec fn enough_packets_of(config: Seq<u8>, data: Seq<Seq<u8>>, object: Seq<u8>, mtu: u16, repair: u32) -> bool {
    &&& config == rq_object_info(object, mtu)
    &&& data.len() > 0
    &&& all_encoded_from(data, object, mtu, repair)
    &&& source_packets_present(data, object, mtu, repair)
}

proof fn lemma_reverse_contains(data: Seq<Seq<u8>>, q: Seq<u8>)
    requires
        data.contains(q),
    ensures
        data.reverse().contains(q),
{
    let i = choose|i: int| 0 <= i < data.len() && data[i] == q;
    assert(data.reverse()[data.len() - 1 - i] == q);
}

/// Decodes a file from its packets, last received first, and stops at the
/// first packet that completes the object. The first component tells whether
/// it was rebuilt. When the information and every packet come from one
/// encoder of an object, the object is what comes back; and when moreover
/// every source packet is among them, the object does come back.
pub fn decode_packets(file_data: Vec<Vec<u8>>, encoder_config: [u8; 12]) -> (r: (bool, Option<Vec<u8>>))
    requires
        rq_config_decodable(encoder_config@),
        all_fit(encoder_config@, byte_views(file_data@)),
    ensures
        r.0 <==> r.1 is Some,
        r.1 is None ==> spec_decode_packets(encoder_config@, byte_views(file_data@)) is None,
        r.1 matches Some(v) ==> spec_decode_packets(encoder_config@, byte_views(file_data@)) == Some(v@),
        forall|object: Seq<u8>, mtu: u16, repair: u32|
            encoder_config@ == rq_object_info(object, mtu)
            && #[trigger] all_encoded_from(byte_views(file_data@), object, mtu, repair)
            && r.1 is Some ==> r.1->0@ == object,
        forall|object: Seq<u8>, mtu: u16, repair: u32|
            #[trigger] enough_packets_of(encoder_config@, byte_views(file_data@), object, mtu, repair)
            ==> r.0 && r.1 is Some && r.1->0@ == object,
{
    let ghost data = byte_views(file_data@);
    let ghost fed = data.reverse();
    let ghost n = data.len();
    let mut pending = file_data;
    let mut decoder = rq_decoder_new(&encoder_config);
    while pending.len() > 0
        invariant
            fed == data.reverse(),
            n == data.len(),
            data == byte_views(file_data@),
            pending@.len() <= n,
            byte_views(pending@) == data.take(pending@.len() as int),
            rq_decoder_config(decoder) == encoder_config@,
            rq_config_decodable(encoder_config@),
            all_fit(encoder_config@, data),
            rq_decoder_received(decoder) == fed.take(n - pending@.len()),
            first_decoded(encoder_config@, fed, 0) == first_decoded(encoder_config@, fed, (n - pending@.len()) as nat),
            forall|object: Seq<u8>, mtu: u16, repair: u32|
                #[trigger] enough_packets_of(encoder_config@, data, object, mtu, repair) ==> pending@.len() > 0,
        decreases pending@.len(),
    {
        let ghost len0 = pending@.len();
        let ghost old_fd = pending@;
        let packet = match pending.pop() {
            Some(p) => p,
            None => {
                return (false, None);
            },
        };
        let ghost m = (n - len0) as nat;
        proof {
            assert(packet == old_fd[len0 - 1]);
            assert(byte_views(old_fd)[len0 - 1] == data.take(len0 as int)[len0 - 1]);
            assert(packet@ == data[len0 - 1]);
            assert(fed[m as int] == data[len0 - 1]);
            assert(byte_views(pending@) =~= data.take(pending@.len() as int));
        }
        let result = rq_decoder_decode(&mut decoder, packet.as_slice());
        proof {
            assert(rq_decoder_received(decoder) =~= fed.take((m + 1) as int));
            assert forall|object: Seq<u8>, mtu: u16, repair: u32|
                #[trigger] enough_packets_of(encoder_config@, data, object, mtu, repair) && pending@.len() == 0
                implies result is Some by {
                assert(rq_decoder_received(decoder) =~= fed);
                assert forall|j: int| 0 <= j < rq_decoder_received(decoder).len() implies
                    rq_encoded_packets(object, mtu, repair).contains(#[trigger] rq_decoder_received(decoder)[j]) by {
                    assert(rq_decoder_received(decoder)[j] == data[n - 1 - j]);
                }
                assert forall|q: Seq<u8>| rq_encoded_packets(object, mtu, repair).contains(q)
                    && rq_is_source_packet(rq_object_info(object, mtu), q)
                    implies #[trigger] rq_decoder_received(decoder).contains(q) by {
                    assert(data.contains(q));
                    lemma_reverse_contains(data, q);
                }
            }
        }
        if result.is_some() {
            proof {
                assert(fed.len() == n);
                assert(m < fed.len());
                assert(rq_decoded(encoder_config@, fed.take((m + 1) as int)) == Some(result->0@));
                assert(first_decoded(encoder_config@, fed, m) == Some(result->0@));
                assert(first_decoded(encoder_config@, fed, 0) == Some(result->0@));
                assert forall|object: Seq<u8>, mtu: u16, repair: u32|
                    encoder_config@ == rq_object_info(object, mtu)
                    && #[trigger] all_encoded_from(data, object, mtu, repair) implies result->0@ == object by {
                    assert forall|j: int| 0 <= j < rq_decoder_received(decoder).len() implies
                        rq_encoded_packets(object, mtu, repair).contains(#[trigger] rq_decoder_received(decoder)[j]) by {
                        assert(rq_decoder_received(decoder)[j] == data[n - 1 - j]);
                    }
                }
                assert forall|object: Seq<u8>, mtu: u16, repair: u32|
                    #[trigger] enough_packets_of(encoder_config@, data, object, mtu, repair) implies result->0@ == object by {
                    assert(all_encoded_from(data, object, mtu, repair));
                }
            }
            return (true, result);
        }
    }
    (false, None)
}


/// What a RaptorQ receiver keeps about one file.
pub struct FileDetailsQ {
    pub filename: String,
    pub number_of_chunks_expected: u64,
    pub file_decoding_status: bool,
    pub file_merging_status: bool,
    pub data: Vec<Vec<u8>>,
    pub encoder_config: [u8; 12],
}

/// The mathematical content of a `FileDetailsQ`.
pub struct FileModelQ {
    pub filename: Seq<char>,
    pub number_of_chunks_expected: u64,
    pub decoding: bool,
    pub merging: bool,
    pub data: Seq<Seq<u8>>,
    pub config: Seq<u8>,
}

impl View for FileDetailsQ {
    type V = FileModelQ;

    open spec fn view(&self) -> FileModelQ {
        FileModelQ {
            filename: self.filename@,
            number_of_chunks_expected: self.number_of_chunks_expected,
            decoding: self.file_decoding_status,
            merging: self.file_merging_status,
            data: byte_views(self.data@),
            config: self.encoder_config@,
        }
    }
}

/// What a RaptorQ receiver keeps: the names of the files it has written, and
/// a record per file it is still collecting.
pub struct ReceiverStateQ {
    pub files_to_ignore: Vec<String>,
    pub file_details_storage: Vec<FileDetailsQ>,
}

/// The mathematical content of a `ReceiverStateQ`.
pub struct ReceiverModelQ {
    pub ignored: Seq<Seq<char>>,
    pub files: Seq<FileModelQ>,
}

impl View for ReceiverStateQ {
    type V = ReceiverModelQ;

    open spec fn view(&self) -> ReceiverModelQ {
        ReceiverModelQ {
            ignored: self.files_to_ignore@.map_values(|s: String| s@),
            files: self.file_details_storage@.map_values(|f: FileDetailsQ| f@),
        }
    }
}

/// Index of the first record of the file named `name`, or -1.
pub open spec fn file_index_q(files: Seq<FileModelQ>, name: Seq<char>) -> int
    decreases files.len(),
{
    if files.len() == 0 {
        -1
    } else {
        let i = file_index_q(files.drop_last(), name);
        if i >= 0 {
            i
        } else if files.last().filename == name {
            files.len() - 1
        } else {
            -1
        }
    }
}

proof fn lemma_file_index_q(files: Seq<FileModelQ>, name: Seq<char>)
    ensures
        -1 <= file_index_q(files, name) < files.len(),
        file_index_q(files, name) == -1 <==> forall|j: int| 0 <= j < files.len() ==> #[trigger] files[j].filename != name,
        file_index_q(files, name) >= 0 ==> files[file_index_q(files, name)].filename == name,
        forall|j: int| 0 <= j < file_index_q(files, name) ==> #[trigger] files[j].filename != name,
    decreases files.len(),
{
    if files.len() > 0 {
        lemma_file_index_q(files.drop_last(), name);
        assert forall|j: int| 0 <= j < files.len() - 1 implies #[trigger] files[j] == files.drop_last()[j] by {}
    }
}

/// The record a file gets when its first packet arrives.
pub open spec fn new_file_model_q(p: PacketQ) -> FileModelQ {
    FileModelQ {
        filename: p.filename@,
        number_of_chunks_expected: p.number_of_chunks_expected,
        decoding: false,
        merging: false,
        data: Seq::<Seq<u8>>::empty(),
        config: p.encoder_config@,
    }
}

/// The records, with a new one for the packet's file if it has none.
pub open spec fn files_with_q(files: Seq<FileModelQ>, p: PacketQ) -> Seq<FileModelQ> {
    if file_index_q(files, p.filename@) >= 0 {
        files
    } else {
        files.push(new_file_model_q(p))
    }
}

/// The record of the packet's file once it exists.
pub open spec fn target_file_q(files: Seq<FileModelQ>, p: PacketQ) -> FileModelQ {
    let fs = files_with_q(files, p);
    fs[file_index_q(fs, p.filename@)]
}

/// Whether a packet makes its file's packets be decoded: the file is not
/// ignored, the record is not decoded yet, and with this packet it holds at
/// least as many packets as the packet says there are, less the repair
/// packets.
pub open spec fn spec_starts_decoding_q(m: ReceiverModelQ, p: PacketQ, number_of_repair_symbols: u64) -> bool {
    let f = target_file_q(m.files, p);
    &&& !m.ignored.contains(p.filename@)
    &&& f.data.len() + 1 >= (p.number_of_chunks_expected - number_of_repair_symbols) as usize
    &&& !f.decoding
}

/// The packets a receiver takes without fault: those of ignored files, and
/// others that expect at least as many packets as there are repair packets
/// and, when they start decoding, leave their file's record with information
/// a decoder can be made from and packets that fit it.
pub open spec fn spec_accepts_q(m: ReceiverModelQ, p: PacketQ, number_of_repair_symbols: u64) -> bool {
    !m.ignored.contains(p.filename@) ==> {
        let f = target_file_q(m.files, p);
        &&& p.number_of_chunks_expected >= number_of_repair_symbols
        &&& spec_starts_decoding_q(m, p, number_of_repair_symbols) ==> rq_config_decodable(f.config)
            && all_fit(f.config, f.data.push(p.data@))
    }
}

/// What one packet does to a RaptorQ receiver. A packet of an ignored file
/// changes nothing. Otherwise the packet's data joins its file's record
/// (created if needed). When that starts decoding and the packets decode, the
/// record is dropped, the file is ignored from then on, and its name and
/// contents are handed out to be written; when they do not decode, the record
/// is marked so that it is never decoded again.
pub open spec fn spec_process_packet_q(m: ReceiverModelQ, p: PacketQ, number_of_repair_symbols: u64) -> (ReceiverModelQ, Option<(Seq<char>, Seq<u8>)>) {
    if m.ignored.contains(p.filename@) {
        (m, None)
    } else {
        let fs = files_with_q(m.files, p);
        let i = file_index_q(fs, p.filename@);
        let f = fs[i];
        let data = f.data.push(p.data@);
        if spec_starts_decoding_q(m, p, number_of_repair_symbols) {
            match spec_decode_packets(f.config, data) {
                Some(contents) => (
                    ReceiverModelQ { ignored: m.ignored.push(p.filename@), files: fs.remove(i) },
                    Some((p.filename@, contents)),
                ),
                None => (
                    ReceiverModelQ { ignored: m.ignored, files: fs.update(i, FileModelQ { decoding: true, data, ..f }) },
                    None,
                ),
            }
        } else {
            (ReceiverModelQ { ignored: m.ignored, files: fs.update(i, FileModelQ { data, ..f }) }, None)
        }
    }
}


impl ReceiverStateQ {
    /// A receiver that has written no file and collects none.
    pub fn new() -> (r: Self)
        ensures
            r@.ignored == Seq::<Seq<char>>::empty(),
            r@.files == Seq::<FileModelQ>::empty(),
    {
        let r = ReceiverStateQ { files_to_ignore: Vec::new(), file_details_storage: Vec::new() };
        assert(r@.ignored =~= Seq::<Seq<char>>::empty());
        assert(r@.files =~= Seq::<FileModelQ>::empty());
        r
    }

    /// Whether the file named `name` was written already.
    pub fn is_ignored(&self, name: &String) -> (b: bool)
        ensures
            b == self@.ignored.contains(name@),
    {
        let mut i: usize = 0;
        while i < self.files_to_ignore.len()
            invariant
                i <= self.files_to_ignore@.len(),
                self@.ignored.len() == self.files_to_ignore@.len(),
                forall|j: int| 0 <= j < i ==> #[trigger] self@.ignored[j] != name@,
            decreases self.files_to_ignore@.len() - i,
        {
            if self.files_to_ignore[i] == *name {
                assert(self@.ignored[i as int] == name@);
                return true;
            }
            assert(self@.ignored[i as int] != name@);
            i = i + 1;
        }
        false
    }

    /// Position of the record of the file named `name`, if there is one.
    pub fn find_file(&self, name: &String) -> (r: Option<usize>)
        ensures
            r matches Some(i) ==> i as int == file_index_q(self@.files, name@),
            r is None ==> file_index_q(self@.files, name@) == -1,
    {
        proof {
            lemma_file_index_q(self@.files, name@);
        }
        let mut i: usize = 0;
        while i < self.file_details_storage.len()
            invariant
                i <= self@.files.len(),
                self@.files.len() == self.file_details_storage@.len(),
                forall|j: int| 0 <= j < i ==> #[trigger] self@.files[j].filename != name@,
                file_index_q(self@.files, name@) == -1 || i <= file_index_q(self@.files, name@),
                -1 <= file_index_q(self@.files, name@) < self@.files.len(),
                file_index_q(self@.files, name@) >= 0 ==> self@.files[file_index_q(self@.files, name@)].filename == name@,
                forall|j: int| 0 <= j < file_index_q(self@.files, name@) ==> #[trigger] self@.files[j].filename != name@,
            decreases self@.files.len() - i,
        {
            if self.file_details_storage[i].filename == *name {
                assert(self@.files[i as int].filename == name@);
                proof {
                    lemma_file_index_q(self@.files, name@);
                }
                assert(file_index_q(self@.files, name@) != -1);
                assert(!(i < file_index_q(self@.files, name@)));
                return Some(i);
            }
            assert(self@.files[i as int].filename != name@);
            i = i + 1;
        }
        None
    }

    /// Whether the receiver takes `packet` without fault (see `spec_accepts_q`).
    pub fn accepts_packet(&self, packet: &PacketQ, number_of_repair_symbols: u64) -> (b: bool)
        ensures
            b == spec_accepts_q(self@, *packet, number_of_repair_symbols),
    {
        let ghost p = *packet;
        if self.is_ignored(&packet.filename) {
            return true;
        }
        if packet.number_of_chunks_expected < number_of_repair_symbols {
            return false;
        }
        let threshold = (packet.number_of_chunks_expected - number_of_repair_symbols) as usize;
        proof {
            lemma_file_index_q(self@.files, p.filename@);
            lemma_file_index_q(files_with_q(self@.files, p), p.filename@);
        }
        match self.find_file(&packet.filename) {
            Some(i) => {
                let fd = &self.file_details_storage[i];
                assert(target_file_q(self@.files, p) == fd@);
                let have = fd.data.len();
                let ready = have >= threshold || have + 1 >= threshold;
                if !ready || fd.file_decoding_status {
                    return true;
                }
                assert(spec_starts_decoding_q(self@, p, number_of_repair_symbols));
                if !config_decodable(&fd.encoder_config) {
                    return false;
                }
                if !packet_fits(&fd.encoder_config, packet.data.as_slice()) {
                    assert(fd@.data.push(p.data@)[fd@.data.len() as int] == p.data@);
                    return false;
                }
                let mut j: usize = 0;
                while j < fd.data.len()
                    invariant
                        j <= fd.data@.len(),
                        fd@.data.len() == fd.data@.len(),
                        p == *packet,
                        !self@.ignored.contains(p.filename@),
                        p.number_of_chunks_expected >= number_of_repair_symbols,
                        target_file_q(self@.files, p) == fd@,
                        spec_starts_decoding_q(self@, p, number_of_repair_symbols),
                        rq_config_decodable(fd@.config),
                        rq_packet_fits(fd@.config, p.data@),
                        forall|k: int| 0 <= k < j ==> rq_packet_fits(fd@.config, #[trigger] fd@.data[k]),
                    decreases fd.data@.len() - j,
                {
                    if !packet_fits(&fd.encoder_config, fd.data[j].as_slice()) {
                        assert(!rq_packet_fits(fd@.config, fd@.data[j as int]));
                        assert(!all_fit(fd@.config, fd@.data.push(p.data@))) by {
                            assert(fd@.data.push(p.data@)[j as int] == fd@.data[j as int]);
                        }
                        return false;
                    }
                    j = j + 1;
                }
                assert(all_fit(fd@.config, fd@.data.push(p.data@))) by {
                    assert forall|k: int| 0 <= k < fd@.data.len() + 1 implies rq_packet_fits(fd@.config, #[trigger] fd@.data.push(p.data@)[k]) by {
                        if k < fd@.data.len() {
                            assert(fd@.data.push(p.data@)[k] == fd@.data[k]);
                        }
                    }
                }
                true
            },
            None => {
                assert(target_file_q(self@.files, p) == new_file_model_q(p));
                if 1 < threshold {
                    return true;
                }
                if !config_decodable(&packet.encoder_config) {
                    return false;
                }
                let fits = packet_fits(&packet.encoder_config, packet.data.as_slice());
                assert(Seq::<Seq<u8>>::empty().push(p.data@)[0] == p.data@);
                fits
            },
        }
    }
}


/// What recording one packet does: a packet of an ignored file changes
/// nothing; otherwise its data joins its file's record (created if needed),
/// which is marked as decoded when the packet starts decoding. The second
/// component tells whether it does.
pub open spec fn spec_record_packet_q(m: ReceiverModelQ, p: PacketQ, number_of_repair_symbols: u64) -> (ReceiverModelQ, bool) {
    if m.ignored.contains(p.filename@) {
        (m, false)
    } else {
        let fs = files_with_q(m.files, p);
        let i = file_index_q(fs, p.filename@);
        let f = fs[i];
        let start = spec_starts_decoding_q(m, p, number_of_repair_symbols);
        (
            ReceiverModelQ {
                ignored: m.ignored,
                files: fs.update(i, FileModelQ { data: f.data.push(p.data@), decoding: f.decoding || start, ..f }),
            },
            start,
        )
    }
}

/// What the outcome of decoding record `i` does: rebuilt contents drop the
/// record, make its file ignored, and are handed out with the file's name;
/// no contents change nothing.
pub open spec fn spec_finish_decoding_q(m: ReceiverModelQ, i: int, contents: Option<Seq<u8>>) -> (ReceiverModelQ, Option<(Seq<char>, Seq<u8>)>) {
    match contents {
        Some(c) => (
            ReceiverModelQ { ignored: m.ignored.push(m.files[i].filename), files: m.files.remove(i) },
            Some((m.files[i].filename, c)),
        ),
        None => (m, None),
    }
}

impl ReceiverStateQ {
    /// Records one packet (see `spec_record_packet_q`); answers with the
    /// position of its file's record when the packet starts decoding.
    pub fn record_packet(&mut self, packet: PacketQ, number_of_repair_symbols: u64) -> (start: Option<usize>)
        requires
            !old(self)@.ignored.contains(packet.filename@) ==> packet.number_of_chunks_expected >= number_of_repair_symbols,
        ensures
            final(self)@ == spec_record_packet_q(old(self)@, packet, number_of_repair_symbols).0,
            start is Some <==> spec_record_packet_q(old(self)@, packet, number_of_repair_symbols).1,
            start matches Some(i) ==> i as int == file_index_q(files_with_q(old(self)@.files, packet), packet.filename@)
                && i < final(self)@.files.len(),
    {
        let ghost p = packet;
        let ghost m0 = self@;
        if self.is_ignored(&packet.filename) {
            return None;
        }
        let PacketQ { filename, number_of_chunks_expected, encoder_config, data, .. } = packet;
        proof {
            lemma_file_index_q(m0.files, p.filename@);
        }
        let idx = match self.find_file(&filename) {
            Some(i) => i,
            None => {
                let fd = FileDetailsQ {
                    filename,
                    number_of_chunks_expected,
                    file_decoding_status: false,
                    file_merging_status: false,
                    data: Vec::new(),
                    encoder_config,
                };
                assert(fd@.data =~= Seq::<Seq<u8>>::empty());
                assert(fd@ == new_file_model_q(p));
                let ghost before = self.file_details_storage@;
                self.file_details_storage.push(fd);
                proof {
                    before.lemma_push_map_commute(|f: FileDetailsQ| f@, fd);
                }
                self.file_details_storage.len() - 1
            },
        };
        let ghost fs = files_with_q(m0.files, p);
        proof {
            assert(self@.files == fs);
            lemma_file_index_q(fs, p.filename@);
            if file_index_q(m0.files, p.filename@) == -1 {
                assert forall|k: int| 0 <= k < fs.len() - 1 implies #[trigger] fs[k].filename != p.filename@ by {
                    assert(fs[k] == m0.files[k]);
                }
            }
        }
        assert(idx as int == file_index_q(fs, p.filename@));
        let ghost f = fs[idx as int];
        let ghost storage0 = self.file_details_storage@;
        let mut fd = self.file_details_storage.remove(idx);
        assert(fd@ == f);
        let ghost data0 = fd.data@;
        fd.data.push(data);
        proof {
            data0.lemma_push_map_commute(|d: Vec<u8>| d@, data);
        }
        let received = fd.data.len();
        let threshold = (number_of_chunks_expected - number_of_repair_symbols) as usize;
        let start = received >= threshold && !fd.file_decoding_status;
        assert(start == spec_starts_decoding_q(m0, p, number_of_repair_symbols));
        if start {
            fd.file_decoding_status = true;
        }
        let ghost fd_final = fd;
        self.file_details_storage.insert(idx, fd);
        proof {
            assert(self.file_details_storage@ =~= storage0.update(idx as int, fd_final));
            assert(self@.files =~= spec_record_packet_q(m0, p, number_of_repair_symbols).0.files);
        }
        if start {
            Some(idx)
        } else {
            None
        }
    }

    /// Applies the outcome of decoding record `index` (see `spec_finish_decoding_q`):
    /// answers with the name and contents of the file to write, if any.
    pub fn finish_decoding(&mut self, index: usize, contents: Option<Vec<u8>>) -> (written: Option<(String, Vec<u8>)>)
        requires
            index < old(self)@.files.len(),
        ensures
            final(self)@ == spec_finish_decoding_q(old(self)@, index as int, bytes_of(contents)).0,
            written is None <==> contents is None,
            written matches Some((name, c)) ==> spec_finish_decoding_q(old(self)@, index as int, bytes_of(contents)).1
                == Some((name@, c@)),
    {
        match contents {
            Some(c) => {
                let ghost m0 = self@;
                let ghost storage0 = self.file_details_storage@;
                let mut fd = self.file_details_storage.remove(index);
                fd.file_merging_status = true;
                let filename = fd.filename;
                let ghost before = self.files_to_ignore@;
                self.files_to_ignore.push(filename.clone());
                proof {
                    before.lemma_push_map_commute(|s: String| s@, filename);
                    assert(self@.files =~= m0.files.remove(index as int));
                }
                Some((filename, c))
            },
            None => None,
        }
    }

    /// One packet arrives (see `spec_process_packet_q`): the receiver records
    /// it, decodes its file's packets when the packet starts decoding, and
    /// answers with the name and contents of the file to write, if the packet
    /// completes one. The contents are the sent file whenever the record's
    /// information and packets all come from one encoder of it; and when they
    /// hold every source packet of that encoder, the file is written.
    pub fn process_packet(&mut self, packet: PacketQ, number_of_repair_symbols: u64) -> (written: Option<(String, Vec<u8>)>)
        requires
            spec_accepts_q(old(self)@, packet, number_of_repair_symbols),
        ensures
            final(self)@ == spec_process_packet_q(old(self)@, packet, number_of_repair_symbols).0,
            written is None <==> spec_process_packet_q(old(self)@, packet, number_of_repair_symbols).1 is None,
            written matches Some((name, contents)) ==> spec_process_packet_q(old(self)@, packet, number_of_repair_symbols).1
                == Some((name@, contents@)),
            forall|object: Seq<u8>, mtu: u16, repair: u32|
                target_file_q(old(self)@.files, packet).config == rq_object_info(object, mtu)
                && #[trigger] all_encoded_from(target_file_q(old(self)@.files, packet).data.push(packet.data@), object, mtu, repair)
                && written is Some ==> (written->0).1@ == object,
            forall|object: Seq<u8>, mtu: u16, repair: u32|
                spec_starts_decoding_q(old(self)@, packet, number_of_repair_symbols)
                && #[trigger] enough_packets_of(
                    target_file_q(old(self)@.files, packet).config,
                    target_file_q(old(self)@.files, packet).data.push(packet.data@),
                    object,
                    mtu,
                    repair,
                ) ==> written is Some && (written->0).0@ == packet.filename@ && (written->0).1@ == object,
    {
        let ghost p = packet;
        let ghost m0 = self@;
        proof {
            lemma_file_index_q(m0.files, p.filename@);
            lemma_file_index_q(files_with_q(m0.files, p), p.filename@);
        }
        let start = self.record_packet(packet, number_of_repair_symbols);
        let idx = match start {
            Some(i) => i,
            None => {
                return None;
            },
        };
        let ghost f = target_file_q(m0.files, p);
        assert(self@.files[idx as int].data == f.data.push(p.data@));
        assert(self@.files[idx as int].config == f.config);
        let file_data = clone_segments(&self.file_details_storage[idx].data);
        let config = self.file_details_storage[idx].encoder_config;
        let (_completed, reconstructed) = decode_packets(file_data, config);
        let ghost m1 = self@;
        let written = self.finish_decoding(idx, reconstructed);
        proof {
            let fs = files_with_q(m0.files, p);
            let i = idx as int;
            if reconstructed is Some {
                assert(m1.files.remove(i) =~= fs.remove(i));
                assert(m1.files[i].filename == p.filename@);
            }
        }
        written
    }
}

/// The receiver's records are consistent: one record per file name, and no
/// record for a file that was written.
pub open spec fn receiver_wf_q(m: ReceiverModelQ) -> bool {
    &&& forall|a: int, b: int| 0 <= a < b < m.files.len() ==> #[trigger] m.files[a].filename != #[trigger] m.files[b].filename
    &&& forall|a: int| 0 <= a < m.files.len() ==> !m.ignored.contains(#[trigger] m.files[a].filename)
}

/// Every packet keeps the records consistent.
pub proof fn lemma_process_packet_keeps_wf_q(m: ReceiverModelQ, p: PacketQ, number_of_repair_symbols: u64)
    requires
        receiver_wf_q(m),
    ensures
        receiver_wf_q(spec_process_packet_q(m, p, number_of_repair_symbols).0),
{
    let name = p.filename@;
    if !m.ignored.contains(name) {
        lemma_file_index_q(m.files, name);
        let fs = files_with_q(m.files, p);
        lemma_file_index_q(fs, name);
        if file_index_q(m.files, name) == -1 {
            assert forall|k: int| 0 <= k < fs.len() - 1 implies #[trigger] fs[k].filename != name by {
                assert(fs[k] == m.files[k]);
            }
        }
        let i = file_index_q(fs, name);
        assert forall|a: int, b: int| 0 <= a < b < fs.len() implies #[trigger] fs[a].filename != #[trigger] fs[b].filename by {
            if file_index_q(m.files, name) == -1 && b == fs.len() - 1 {
                assert(fs[a].filename != name);
            } else {
                assert(fs[a] == m.files[a] && fs[b] == m.files[b]);
            }
        }
        assert forall|a: int| 0 <= a < fs.len() implies !m.ignored.contains(#[trigger] fs[a].filename) by {
            if a < m.files.len() {
                assert(fs[a] == m.files[a]);
            }
        }
        let r = spec_process_packet_q(m, p, number_of_repair_symbols).0;
        let f = fs[i];
        let data = f.data.push(p.data@);
        if spec_starts_decoding_q(m, p, number_of_repair_symbols) && spec_decode_packets(f.config, data) is Some {
            let rem = fs.remove(i);
            assert forall|a: int| 0 <= a < rem.len() implies #[trigger] rem[a] == (if a < i { fs[a] } else { fs[a + 1] }) by {}
            assert forall|a: int, b: int| 0 <= a < b < rem.len() implies #[trigger] rem[a].filename != #[trigger] rem[b].filename by {
                let a2 = if a < i { a } else { a + 1 };
                let b2 = if b < i { b } else { b + 1 };
                assert(rem[a] == fs[a2] && rem[b] == fs[b2]);
            }
            assert forall|a: int| 0 <= a < rem.len() implies !r.ignored.contains(#[trigger] rem[a].filename) by {
                let a2 = if a < i { a } else { a + 1 };
                assert(rem[a] == fs[a2]);
                assert(fs[a2].filename != name);
                if r.ignored.contains(rem[a].filename) {
                    let j = choose|j: int| 0 <= j < r.ignored.len() && r.ignored[j] == rem[a].filename;
                    if j < m.ignored.len() {
                        assert(m.ignored[j] == r.ignored[j]);
                    }
                }
            }
        } else {
            assert forall|a: int| 0 <= a < r.files.len() implies #[trigger] r.files[a].filename == fs[a].filename by {}
        }
    }
}

/// A written file stays written: names once ignored stay ignored, and a
/// packet of an ignored file changes nothing and writes nothing.
pub proof fn lemma_ignored_files_stay_ignored(m: ReceiverModelQ, p: PacketQ, number_of_repair_symbols: u64)
    ensures
        forall|name: Seq<char>| #[trigger] m.ignored.contains(name)
            ==> spec_process_packet_q(m, p, number_of_repair_symbols).0.ignored.contains(name),
        m.ignored.contains(p.filename@) ==> spec_process_packet_q(m, p, number_of_repair_symbols) == (m, None::<(Seq<char>, Seq<u8>)>),
{
    let r = spec_process_packet_q(m, p, number_of_repair_symbols).0;
    assert forall|name: Seq<char>| #[trigger] m.ignored.contains(name) implies r.ignored.contains(name) by {
        let j = choose|j: int| 0 <= j < m.ignored.len() && m.ignored[j] == name;
        if r.ignored != m.ignored {
            assert(r.ignored[j] == m.ignored[j]);
        }
    }
}

/// A file is written at most once: the packet that writes it also makes it
/// ignored, so no later packet writes it again.
pub proof fn lemma_file_written_once(m: ReceiverModelQ, p: PacketQ, number_of_repair_symbols: u64)
    ensures
        spec_process_packet_q(m, p, number_of_repair_symbols).1 matches Some((name, contents)) ==> {
            &&& name == p.filename@
            &&& !m.ignored.contains(name)
            &&& spec_process_packet_q(m, p, number_of_repair_symbols).0.ignored.contains(name)
        },
{
    let r = spec_process_packet_q(m, p, number_of_repair_symbols);
    if r.1 is Some {
        assert(r.0.ignored[r.0.ignored.len() - 1] == p.filename@);
    }
}

/// A record's packets are decoded at most once: a packet of a file whose
/// record was decoded already writes nothing and leaves the record marked.
pub proof fn lemma_decode_attempted_once(m: ReceiverModelQ, p: PacketQ, number_of_repair_symbols: u64)
    requires
        file_index_q(m.files, p.filename@) >= 0,
        m.files[file_index_q(m.files, p.filename@)].decoding,
    ensures
        spec_process_packet_q(m, p, number_of_repair_symbols).1 is None,
        !m.ignored.contains(p.filename@) ==> {
            let r = spec_process_packet_q(m, p, number_of_repair_symbols).0;
            &&& r.files.len() == m.files.len()
            &&& r.files[file_index_q(m.files, p.filename@)].decoding
        },
{
    lemma_file_index_q(m.files, p.filename@);
}


/// The packets that the sender makes of a file never make a receiver fault:
/// as long as the receiver's record of the file (if any) was filled from those
/// packets, it takes each of them, provided the packet count is at least the
/// repair count it assumes.
pub proof fn lemma_receiver_accepts_sender_packets(
    m: ReceiverModelQ,
    ps: Seq<PacketQ>,
    name: Seq<char>,
    file: Seq<u8>,
    mtu: u16,
    repair: u32,
    i: int,
    number_of_repair_symbols: u64,
)
    requires
        is_file_packets_q(ps, name, file, mtu, repair),
        rq_config_decodable(rq_object_info(file, mtu)),
        forall|k: int| 0 <= k < ps.len() ==> rq_packet_fits((#[trigger] ps[k]).encoder_config@, ps[k].data@),
        0 <= i < ps.len(),
        number_of_repair_symbols <= ps.len() <= u64::MAX,
        file_index_q(m.files, name) >= 0 ==> {
            let f = m.files[file_index_q(m.files, name)];
            &&& f.config == rq_object_info(file, mtu)
            &&& forall|k: int| 0 <= k < f.data.len() ==> exists|j: int| 0 <= j < ps.len() && #[trigger] f.data[k] == ps[j].data@
        },
    ensures
        spec_accepts_q(m, ps[i], number_of_repair_symbols),
{
    let p = ps[i];
    assert(p.filename@ == name);
    assert(p.number_of_chunks_expected >= number_of_repair_symbols);
    assert(p.encoder_config@ == rq_object_info(file, mtu));
    lemma_file_index_q(m.files, name);
    let f = target_file_q(m.files, p);
    if file_index_q(m.files, name) >= 0 {
        assert(f == m.files[file_index_q(m.files, name)]);
    } else {
        lemma_file_index_q(files_with_q(m.files, p), name);
        assert forall|k: int| 0 <= k < m.files.len() implies #[trigger] files_with_q(m.files, p)[k].filename != name by {
            assert(files_with_q(m.files, p)[k] == m.files[k]);
        }
        assert(f == new_file_model_q(p));
    }
    assert forall|k: int| 0 <= k < f.data.push(p.data@).len() implies rq_packet_fits(f.config, #[trigger] f.data.push(p.data@)[k]) by {
        if k < f.data.len() {
            let j = choose|j: int| 0 <= j < ps.len() && f.data[k] == ps[j].data@;
            assert(rq_packet_fits(ps[j].encoder_config@, ps[j].data@));
            assert(f.data.push(p.data@)[k] == f.data[k]);
        } else {
            assert(f.data.push(p.data@)[k] == p.data@);
        }
    }
}

/// What the sender sends of a file is enough to rebuild it: the data of the
/// packets it makes, in any order and with any of them repeated, hold every
/// source packet, so the receiver's decoding gives the file back (see
/// `decode_packets`).
pub proof fn lemma_sent_packets_rebuild_file(
    ps: Seq<PacketQ>,
    name: Seq<char>,
    file: Seq<u8>,
    mtu: u16,
    repair: u32,
    arrived: Seq<Seq<u8>>,
)
    requires
        is_file_packets_q(ps, name, file, mtu, repair),
        arrived.len() >= 1,
        forall|k: int| 0 <= k < arrived.len() ==> exists|j: int| 0 <= j < ps.len() && #[trigger] arrived[k] == ps[j].data@,
        forall|j: int| 0 <= j < ps.len() ==> arrived.contains(#[trigger] ps[j].data@),
    ensures
        enough_packets_of(rq_object_info(file, mtu), arrived, file, mtu, repair),
{
    let enc = rq_encoded_packets(file, mtu, repair);
    assert forall|k: int| 0 <= k < arrived.len() implies enc.contains(#[trigger] arrived[k]) by {
        let j = choose|j: int| 0 <= j < ps.len() && #[trigger] arrived[k] == ps[j].data@;
        assert(ps[j].data@ == enc[j]);
    }
    assert forall|q: Seq<u8>| enc.contains(q) && rq_is_source_packet(rq_object_info(file, mtu), q)
        implies #[trigger] arrived.contains(q) by {
        let j = choose|j: int| 0 <= j < enc.len() && enc[j] == q;
        assert(ps[j].data@ == enc[j]);
        assert(arrived.contains(ps[j].data@));
    }
}

} // verus!
