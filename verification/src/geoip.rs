//! Reader for GeoIP Legacy Country databases (`GeoIP.dat`).

use vstd::prelude::*;

use crate::ipv4::{dotted_quad, is_dotted_quad, law_parse_dotted_quad, parse_ipv4, spec_parse_ipv4};

verus! {

/// Edition byte that marks a Country database.
pub const GEOIP_COUNTRY_EDITION: u8 = 1;

/// First record value that denotes a country rather than another trie node
/// (0xFFFF00, the segment base of the Country edition).
pub const GEOIP_COUNTRY_BEGIN: u32 = 16776960;

/// Bytes per trie record.
pub const RECORD_LEN: usize = 3;

/// ISO 3166-1 alpha-2 country codes in GeoIP Legacy order; `--` marks an
/// index that denotes no country.
pub const COUNTRY_CODES: [[u8; 2]; 256] = [
    [45, 45], [65, 80], [69, 85], [65, 68], [65, 69], [65, 70], [65, 71], [65, 73],
    [65, 76], [65, 77], [67, 87], [65, 79], [65, 81], [65, 82], [65, 83], [65, 84],
    [65, 85], [65, 87], [65, 90], [66, 65], [66, 66], [66, 68], [66, 69], [66, 70],
    [66, 71], [66, 72], [66, 73], [66, 74], [66, 77], [66, 78], [66, 79], [66, 82],
    [66, 83], [66, 84], [66, 86], [66, 87], [66, 89], [66, 90], [67, 65], [67, 67],
    [67, 68], [67, 70], [67, 71], [67, 72], [67, 73], [67, 75], [67, 76], [67, 77],
    [67, 78], [67, 79], [67, 82], [67, 85], [67, 86], [67, 88], [67, 89], [67, 90],
    [68, 69], [68, 74], [68, 75], [68, 77], [68, 79], [68, 90], [69, 67], [69, 69],
    [69, 71], [69, 72], [69, 82], [69, 83], [69, 84], [70, 73], [70, 74], [70, 75],
    [70, 77], [70, 79], [70, 82], [83, 88], [71, 65], [71, 66], [71, 68], [71, 69],
    [71, 70], [71, 72], [71, 73], [71, 76], [71, 77], [71, 78], [71, 80], [71, 81],
    [71, 82], [71, 83], [71, 84], [71, 85], [71, 87], [71, 89], [72, 75], [72, 77],
    [72, 78], [72, 82], [72, 84], [72, 85], [73, 68], [73, 69], [73, 76], [73, 78],
    [73, 79], [73, 81], [73, 82], [73, 83], [73, 84], [74, 77], [74, 79], [74, 80],
    [75, 69], [75, 71], [75, 72], [75, 73], [75, 77], [75, 78], [75, 80], [75, 82],
    [75, 87], [75, 89], [75, 90], [76, 65], [76, 66], [76, 67], [76, 73], [76, 75],
    [76, 82], [76, 83], [76, 84], [76, 85], [76, 86], [76, 89], [77, 65], [77, 67],
    [77, 68], [77, 71], [77, 72], [77, 75], [77, 76], [77, 77], [77, 78], [77, 79],
    [77, 80], [77, 81], [77, 82], [77, 83], [77, 84], [77, 85], [77, 86], [77, 87],
    [77, 88], [77, 89], [77, 90], [78, 65], [78, 67], [78, 69], [78, 70], [78, 71],
    [78, 73], [78, 76], [78, 79], [78, 80], [78, 82], [78, 85], [78, 90], [79, 77],
    [80, 65], [80, 69], [80, 70], [80, 71], [80, 72], [80, 75], [80, 76], [80, 77],
    [80, 78], [80, 82], [80, 83], [80, 84], [80, 87], [80, 89], [81, 65], [82, 69],
    [82, 79], [82, 85], [82, 87], [83, 65], [83, 66], [83, 67], [83, 68], [83, 69],
    [83, 71], [83, 72], [83, 73], [83, 74], [83, 75], [83, 76], [83, 77], [83, 78],
    [83, 79], [83, 82], [83, 84], [83, 86], [83, 89], [83, 90], [84, 67], [84, 68],
    [84, 70], [84, 71], [84, 72], [84, 74], [84, 75], [84, 77], [84, 78], [84, 79],
    [84, 76], [84, 82], [84, 84], [84, 86], [84, 87], [84, 90], [85, 65], [85, 71],
    [85, 77], [85, 83], [85, 89], [85, 90], [86, 65], [86, 67], [86, 69], [86, 71],
    [86, 73], [86, 78], [86, 85], [87, 70], [87, 83], [89, 69], [89, 84], [82, 83],
    [90, 65], [90, 77], [77, 69], [90, 87], [65, 49], [65, 50], [79, 49], [65, 88],
    [71, 71], [73, 77], [74, 69], [66, 76], [77, 70], [66, 81], [83, 83], [45, 45],
];

/// The two bytes `--`.
pub open spec fn no_country() -> Seq<u8> {
    seq![45u8, 45u8]
}

/// The country code that the database index `id` stands for, if any.
pub open spec fn spec_country_code(id: int) -> Option<[u8; 2]> {
    if 0 <= id < 256 && COUNTRY_CODES@[id]@ != no_country() {
        Some(COUNTRY_CODES@[id])
    } else {
        None
    }
}

/// Returns the country code of database index `id`, or `None` when the index
/// is out of range or denotes no country.
pub fn country_code(id: usize) -> (r: Option<[u8; 2]>)
    ensures
        r == spec_country_code(id as int),
{
    if id < 256 {
        let code = COUNTRY_CODES[id];
        if code[0] == 45 && code[1] == 45 {
            assert(code@ =~= no_country());
            None
        } else {
            assert(code@ != no_country()) by {
                if code@ == no_country() {
                    assert(code@[0] == 45u8 && code@[1] == 45u8);
                }
            }
            Some(code)
        }
    } else {
        None
    }
}


/// An opened Country database: the whole file and the segment base.
pub struct GeoIpDb {
    pub data: Vec<u8>,
    pub segments: u32,
}

/// Three bytes `0xFF 0xFF 0xFF` start at `i`.
pub open spec fn is_marker_at(data: Seq<u8>, i: int) -> bool {
    data[i] == 0xFFu8 && data[i + 1] == 0xFFu8 && data[i + 2] == 0xFFu8
}

/// Where the search for the edition marker starts: 100 bytes before the end,
/// or at the start of a shorter file.
pub open spec fn marker_search_start(len: int) -> int {
    if len >= 100 {
        len - 100
    } else {
        0
    }
}

/// `i` is the first marker position in the search window `[start, len - 3)`.
pub open spec fn is_first_marker(data: Seq<u8>, i: int) -> bool {
    &&& marker_search_start(data.len() as int) <= i < data.len() - 3
    &&& is_marker_at(data, i)
    &&& forall|j: int| marker_search_start(data.len() as int) <= j < i ==> !#[trigger] is_marker_at(data, j)
}

/// A file is accepted as a Country database when it is at least 10 bytes long
/// and the byte after the first `0xFF 0xFF 0xFF` marker within its last 100
/// bytes (ending three bytes before the end of the file) is the Country
/// edition.
pub open spec fn is_country_database(data: Seq<u8>) -> bool {
    &&& data.len() >= 10
    &&& exists|i: int| #[trigger] is_first_marker(data, i) && data[i + 3] == GEOIP_COUNTRY_EDITION
}

/// Checks that `data` is a Country database and wraps it.
pub fn parse_db(data: Vec<u8>) -> (r: Option<GeoIpDb>)
    ensures
        r is Some <==> is_country_database(data@),
        r matches Some(db) ==> db.data@ == data@ && db.segments == GEOIP_COUNTRY_BEGIN,
{
    if data.len() < 10 {
        return None;
    }
    let len = data.len();
    let search_start = len.saturating_sub(100);
    let end = len.saturating_sub(3);
    let mut found_country = false;
    let mut i = search_start;
    let ghost mut found_at: int = -1;
    while i < end
        invariant_except_break
            search_start <= i <= end,
            search_start == marker_search_start(len as int),
            end == len - 3,
            len == data@.len(),
            len >= 10,
            !found_country,
            forall|j: int| search_start <= j < i ==> !#[trigger] is_marker_at(data@, j),
        ensures
            found_country ==> is_first_marker(data@, found_at) && data@[found_at + 3] == GEOIP_COUNTRY_EDITION,
            !found_country ==> forall|k: int| #[trigger] is_first_marker(data@, k) ==> data@[k + 3] != GEOIP_COUNTRY_EDITION,
        decreases end - i,
    {
        if data[i] == 0xFF && data[i + 1] == 0xFF && data[i + 2] == 0xFF {
            found_country = data[i + 3] == GEOIP_COUNTRY_EDITION;
            proof {
                found_at = i as int;
                assert(is_first_marker(data@, i as int));
                assert forall|k: int| #[trigger] is_first_marker(data@, k) implies k == i by {
                    if k < i {
                        assert(!is_marker_at(data@, k));
                    } else if k > i {
                        assert(!is_marker_at(data@, i as int));
                    }
                }
            }
            break;
        }
        i = i + 1;
    }
    if !found_country {
        return None;
    }
    Some(GeoIpDb { data, segments: GEOIP_COUNTRY_BEGIN })
}

/// Bit `depth` of `ip` (bit 31 is the most significant).
pub open spec fn ip_bit(ip: u32, depth: int) -> int {
    ((ip >> (depth as u32)) & 1u32) as int
}

/// The little-endian 24-bit record stored at `pos`.
pub open spec fn record_value(data: Seq<u8>, pos: int) -> int {
    data[pos] as int + data[pos + 1] as int * 256 + data[pos + 2] as int * 65536
}

/// The answer of a walk down the search trie that starts at node `node` and
/// follows bits `depth`, `depth - 1`, ..., `0` of `ip`. Node `n` holds two
/// records at byte `6 * n`: the branch for bit 0, then the branch for bit 1.
/// A record at least `segments` ends the walk with country index
/// `record - segments`; a smaller one is the next node. A record that lies
/// beyond the data, or running out of bits, gives no answer.
pub open spec fn trie_walk(data: Seq<u8>, segments: u32, ip: u32, node: int, depth: int) -> Option<int>
    decreases depth + 1,
{
    if depth < 0 {
        None
    } else {
        let pos = node * 6 + ip_bit(ip, depth) * 3;
        if pos + 3 > data.len() {
            None
        } else if record_value(data, pos) >= segments {
            Some(record_value(data, pos) - segments)
        } else {
            trie_walk(data, segments, ip, record_value(data, pos), depth - 1)
        }
    }
}

/// The country index that the database assigns to `ip`: a walk from the root
/// over all 32 bits, most significant first.
pub open spec fn spec_lookup_country_id(data: Seq<u8>, segments: u32, ip: u32) -> Option<int> {
    trie_walk(data, segments, ip, 0, 31)
}

impl GeoIpDb {
    /// Looks up the country index of the IPv4 address `ip` (as a big-endian
    /// number).
    pub fn lookup_country_id(&self, ip: u32) -> (r: Option<usize>)
        ensures
            r matches Some(id) ==> spec_lookup_country_id(self.data@, self.segments, ip) == Some(id as int),
            r is None ==> spec_lookup_country_id(self.data@, self.segments, ip) is None,
    {
        let mut offset: u32 = 0;
        let mut d: u32 = 32;
        while d > 0
            invariant
                d <= 32,
                offset < 16777216,
                trie_walk(self.data@, self.segments, ip, offset as int, d - 1)
                    == spec_lookup_country_id(self.data@, self.segments, ip),
            decreases d,
        {
            let depth = d - 1;
            let bit = ((ip >> depth) & 1) as usize;
            assert(((ip >> depth) & 1u32) <= 1u32) by (bit_vector);
            let record_offset = (offset as usize) * 2 * RECORD_LEN + bit * RECORD_LEN;
            if record_offset + RECORD_LEN > self.data.len() {
                return None;
            }
            let b0 = self.data[record_offset] as u32;
            let b1 = self.data[record_offset + 1] as u32;
            let b2 = self.data[record_offset + 2] as u32;
            let val: u32 = b0 | (b1 << 8) | (b2 << 16);
            assert(val == b0 + b1 * 256 + b2 * 65536 && val < 16777216) by (bit_vector)
                requires
                    b0 < 256,
                    b1 < 256,
                    b2 < 256,
                    val == b0 | (b1 << 8) | (b2 << 16),
            ;
            if val >= self.segments {
                return Some((val - self.segments) as usize);
            }
            offset = val;
            d = depth;
        }
        None
    }
}

/// The country code that the database assigns to the dotted-decimal address
/// `addr`, if `addr` is one and the database names a country for it.
pub open spec fn spec_country_code_by_addr(data: Seq<u8>, segments: u32, addr: Seq<u8>) -> Option<[u8; 2]> {
    match spec_parse_ipv4(addr) {
        None => None,
        Some(ip) => match spec_lookup_country_id(data, segments, ip) {
            None => None,
            Some(id) => spec_country_code(id),
        },
    }
}

impl GeoIpDb {
    /// Returns the country code for the IPv4 address written in `addr`, or
    /// `None` when `addr` is not a dotted-decimal address, the lookup finds
    /// nothing, or the index found denotes no country.
    pub fn country_code_by_addr(&self, addr: &[u8]) -> (r: Option<[u8; 2]>)
        ensures
            r == spec_country_code_by_addr(self.data@, self.segments, addr@),
    {
        let ip = match parse_ipv4(addr) {
            Some(ip) => ip,
            None => return None,
        };
        let country_id = match self.lookup_country_id(ip) {
            Some(id) => id,
            None => return None,
        };
        country_code(country_id)
    }
}

/// Host names are not resolved: text that is not a dotted-decimal IPv4
/// address has no country, whatever the database holds.
pub proof fn law_only_addresses_have_countries(data: Seq<u8>, segments: u32, addr: Seq<u8>)
    requires
        !is_dotted_quad(addr),
    ensures
        spec_country_code_by_addr(data, segments, addr) is None,
{
}

/// A country code that an address is given is a real code of the table,
/// never the placeholder `--`.
pub proof fn law_codes_are_real_countries(data: Seq<u8>, segments: u32, addr: Seq<u8>)
    ensures
        spec_country_code_by_addr(data, segments, addr) matches Some(code) ==> {
            &&& code@ != no_country()
            &&& exists|id: int| 0 <= id < 256 && COUNTRY_CODES@[id] == code
        },
{
    if let Some(code) = spec_country_code_by_addr(data, segments, addr) {
        let id = spec_lookup_country_id(data, segments, spec_parse_ipv4(addr).unwrap()).unwrap();
        assert(0 <= id < 256 && COUNTRY_CODES@[id] == code);
    }
}

/// The byte offset of the record that step `j` of a walk reads: node
/// `nodes[j]`, branch by bit `31 - j` of `ip`.
spec fn chain_pos(ip: u32, nodes: Seq<int>, j: int) -> int {
    nodes[j] * 6 + ((ip >> ((31 - j) as u32)) & 1u32) as int * 3
}

/// The 24-bit little-endian number stored at `p`.
spec fn le24(data: Seq<u8>, p: int) -> int {
    data[p] as int + 256 * data[p + 1] as int + 65536 * data[p + 2] as int
}

/// `nodes` is the path of `ip` through the trie: it starts at the root, at
/// step `j` it reads the record for bit `31 - j` of `ip` in node `nodes[j]`,
/// each record before the last names the next node (below `segments`), and
/// the last record is a country (at least `segments`).
spec fn is_country_path(data: Seq<u8>, segments: u32, ip: u32, nodes: Seq<int>) -> bool {
    &&& 1 <= nodes.len() <= 32
    &&& nodes[0] == 0
    &&& forall|j: int| #![trigger nodes[j]] 0 <= j < nodes.len() ==> chain_pos(ip, nodes, j) + 3 <= data.len()
    &&& forall|j: int|
        #![trigger nodes[j]]
        0 <= j < nodes.len() - 1 ==> le24(data, chain_pos(ip, nodes, j)) == nodes[j + 1] && nodes[j + 1]
            < segments
    &&& le24(data, chain_pos(ip, nodes, nodes.len() - 1)) >= segments
}

#[verifier::spinoff_prover]
proof fn lemma_walk_along_path(data: Seq<u8>, segments: u32, ip: u32, nodes: Seq<int>, j: int)
    requires
        is_country_path(data, segments, ip, nodes),
        0 <= j < nodes.len(),
    ensures
        trie_walk(data, segments, ip, nodes[j], 31 - j) == Some(
            le24(data, chain_pos(ip, nodes, nodes.len() - 1)) - segments,
        ),
    decreases nodes.len() - j,
{
    assert(chain_pos(ip, nodes, j) + 3 <= data.len());
    assert(ip_bit(ip, 31 - j) == ((ip >> ((31 - j) as u32)) & 1u32) as int);
    if j < nodes.len() - 1 {
        assert(le24(data, chain_pos(ip, nodes, j)) == nodes[j + 1] && nodes[j + 1] < segments);
        lemma_walk_along_path(data, segments, ip, nodes, j + 1);
    }
}

/// The lookup follows the trie through as many of the 32 address bits as
/// the trie needs: whenever the path of `ip` from the root (bit 31 first,
/// each node holding the 3-byte little-endian records for bit 0 and bit 1 at
/// byte `6 * node`) reaches a record at least `segments` after `k` steps,
/// for any `k` from 1 to 32, the answer is that record minus `segments`.
#[verifier::spinoff_prover]
pub proof fn law_lookup_follows_all_bits(data: Seq<u8>, segments: u32, ip: u32, nodes: Seq<int>, k: int)
    requires
        k == nodes.len(),
        1 <= k <= 32,
        nodes[0] == 0,
        forall|j: int|
            #![trigger nodes[j]]
            0 <= j < k ==> nodes[j] * 6 + ((ip >> ((31 - j) as u32)) & 1u32) as int * 3 + 3 <= data.len(),
        forall|j: int|
            #![trigger nodes[j]]
            0 <= j < k - 1 ==> ({
                let p = nodes[j] * 6 + ((ip >> ((31 - j) as u32)) & 1u32) as int * 3;
                data[p] as int + 256 * data[p + 1] as int + 65536 * data[p + 2] as int == nodes[j + 1]
                    && nodes[j + 1] < segments
            }),
        ({
            let p = nodes[k - 1] * 6 + ((ip >> ((31 - (k - 1)) as u32)) & 1u32) as int * 3;
            data[p] as int + 256 * data[p + 1] as int + 65536 * data[p + 2] as int >= segments
        }),
    ensures
        ({
            let p = nodes[k - 1] * 6 + ((ip >> ((31 - (k - 1)) as u32)) & 1u32) as int * 3;
            spec_lookup_country_id(data, segments, ip) == Some(
                data[p] as int + 256 * data[p + 1] as int + 65536 * data[p + 2] as int - segments,
            )
        }),
{
    assert forall|j: int| #![trigger nodes[j]] 0 <= j < nodes.len() implies chain_pos(ip, nodes, j) + 3
        <= data.len() by {}
    assert forall|j: int| #![trigger nodes[j]] 0 <= j < nodes.len() - 1 implies le24(data, chain_pos(ip, nodes, j))
        == nodes[j + 1] && nodes[j + 1] < segments by {}
    assert(is_country_path(data, segments, ip, nodes));
    lemma_walk_along_path(data, segments, ip, nodes, 0);
}

/// A file of at least 10 bytes whose first `0xFF 0xFF 0xFF` marker in the
/// search window (from 100 bytes before the end, or the start, to 3 bytes
/// before the end) starts at `i` is accepted exactly when the byte after
/// that marker is 1, the Country edition; any other edition is rejected.
#[verifier::spinoff_prover]
pub proof fn law_country_edition_only(data: Seq<u8>, i: int)
    requires
        data.len() >= 10,
        (if data.len() >= 100 { data.len() - 100 } else { 0 }) <= i < data.len() - 3,
        data[i] == 0xFFu8 && data[i + 1] == 0xFFu8 && data[i + 2] == 0xFFu8,
        forall|j: int|
            #![trigger data[j]]
            (if data.len() >= 100 { data.len() - 100 } else { 0 }) <= j < i ==> !(data[j] == 0xFFu8 && data[j + 1]
                == 0xFFu8 && data[j + 2] == 0xFFu8),
    ensures
        is_country_database(data) <==> data[i + 3] == 1u8,
{
    assert(is_first_marker(data, i)) by {
        assert forall|j: int| marker_search_start(data.len() as int) <= j < i implies !#[trigger] is_marker_at(
            data,
            j,
        ) by {
            assert(!(data[j] == 0xFFu8 && data[j + 1] == 0xFFu8 && data[j + 2] == 0xFFu8));
        }
    }
    assert forall|k: int| #[trigger] is_first_marker(data, k) implies k == i by {
        if k < i {
            assert(!(data[k] == 0xFFu8 && data[k + 1] == 0xFFu8 && data[k + 2] == 0xFFu8));
        } else if k > i {
            assert(!is_marker_at(data, i));
        }
    }
}

/// A file shorter than 10 bytes, or with no `0xFF 0xFF 0xFF` marker in the
/// search window, is rejected.
#[verifier::spinoff_prover]
pub proof fn law_no_marker_no_database(data: Seq<u8>)
    requires
        data.len() < 10 || forall|j: int|
            #![trigger data[j]]
            (if data.len() >= 100 { data.len() - 100 } else { 0 }) <= j < data.len() - 3 ==> !(data[j] == 0xFFu8
                && data[j + 1] == 0xFFu8 && data[j + 2] == 0xFFu8),
    ensures
        !is_country_database(data),
{
    if data.len() >= 10 {
        assert forall|k: int| !#[trigger] is_first_marker(data, k) by {
            if is_first_marker(data, k) {
                assert(!(data[k] == 0xFFu8 && data[k + 1] == 0xFFu8 && data[k + 2] == 0xFFu8));
            }
        }
    }
}

/// The code given to the text `a.b.c.d` is the country of the index that the
/// trie walk gives for the whole address `a * 2^24 + b * 2^16 + c * 2^8 + d`:
/// the table entry at that index, unless the index is out of range or its
/// entry is `--`.
#[verifier::spinoff_prover]
pub proof fn law_code_of_whole_address(data: Seq<u8>, segments: u32, a: u8, b: u8, c: u8, d: u8)
    ensures
        spec_country_code_by_addr(data, segments, dotted_quad(a, b, c, d)) == match spec_lookup_country_id(
            data,
            segments,
            (a as int * 16777216 + b as int * 65536 + c as int * 256 + d as int) as u32,
        ) {
            None => None,
            Some(id) => if 0 <= id < 256 && !(COUNTRY_CODES@[id][0] == 45u8 && COUNTRY_CODES@[id][1] == 45u8) {
                Some(COUNTRY_CODES@[id])
            } else {
                None
            },
        },
{
    law_parse_dotted_quad(a, b, c, d);
    let ip = (a as int * 16777216 + b as int * 65536 + c as int * 256 + d as int) as u32;
    if let Some(id) = spec_lookup_country_id(data, segments, ip) {
        if 0 <= id < 256 {
            let code = COUNTRY_CODES@[id];
            if code@ == no_country() {
                assert(code@[0] == 45u8 && code@[1] == 45u8);
            }
            if code[0] == 45u8 && code[1] == 45u8 {
                assert(code@ =~= no_country());
            }
        }
    }
}

/// The Country edition is edition 1, its segment base is 0xFFFF00, and a
/// record is three bytes long.
pub proof fn law_country_format_numbers()
    ensures
        GEOIP_COUNTRY_EDITION == 1,
        GEOIP_COUNTRY_BEGIN == 0xFFFF00,
        RECORD_LEN == 3,
{
}

} // verus!
