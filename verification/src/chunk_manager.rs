//! Placement of chunks: which server holds each chunk, and which chunks
//! each live server holds.

use crate::chunk_id::{
    chunk_id_text, group_text, group_to_text, id_parse, id_text, lemma_id_text_plain,
    lemma_parse_group_prefix, parse_chunk_id, parse_group, random_id,
};
use crate::error::FsError;
use crate::safe_map::{distinct_keys, insert_all, lemma_map_of_index, map_of, SafeMap};
use crate::text::{
    free_of, holds_char, join_spec, lemma_split_fields_free, lemma_split_join,
    lemma_split_nonempty, split_fields, split_spec,
};
use vstd::prelude::*;

verus! {

/// How many servers one write is placed on.
pub const REPLICAS: usize = 3;

/// The chunk map and the server map.
pub struct ChunkTables {
    chunk_map: SafeMap<u128, String>,
    server_map: SafeMap<String, Vec<u128>>,
}

/// The mathematical content of the two maps: the server of each chunk, and
/// the chunks of each live server in the order in which they were placed.
pub struct ChunkTablesView {
    pub chunks: Map<u128, Seq<char>>,
    pub servers: Map<Seq<char>, Seq<u128>>,
}

/// Every chunk's server is live and lists the chunk.
pub open spec fn consistent(v: ChunkTablesView) -> bool {
    forall|c: u128| #[trigger]
        v.chunks.contains_key(c) ==> v.servers.contains_key(v.chunks[c])
            && v.servers[v.chunks[c]].contains(c)
}

/// Whether `ids` can be placed on `servers`, one on each: as many servers as
/// identifiers, no identifier twice or already known, no server twice, every
/// server live.
pub open spec fn placement_valid(v: ChunkTablesView, ids: Seq<u128>, servers: Seq<Seq<char>>) -> bool {
    &&& ids.len() == servers.len()
    &&& ids.no_duplicates()
    &&& servers.no_duplicates()
    &&& forall|i: int| 0 <= i < ids.len() ==> !v.chunks.contains_key(#[trigger] ids[i])
    &&& forall|i: int| 0 <= i < servers.len() ==> v.servers.contains_key(#[trigger] servers[i])
}

/// The maps after `ids` were placed on `servers`, pair by pair in order:
/// each server lists its new chunk last, and each chunk records its server.
pub open spec fn with_placement(
    v: ChunkTablesView,
    ids: Seq<u128>,
    servers: Seq<Seq<char>>,
) -> ChunkTablesView
    decreases ids.len(),
{
    if ids.len() == 0 || servers.len() != ids.len() {
        v
    } else {
        let before = with_placement(v, ids.drop_last(), servers.drop_last());
        ChunkTablesView {
            chunks: before.chunks.insert(ids.last(), servers.last()),
            servers: before.servers.insert(
                servers.last(),
                before.servers[servers.last()].push(ids.last()),
            ),
        }
    }
}

/// The pairs of a placement: the `i`-th identifier with the `i`-th server.
pub open spec fn pair_up(ids: Seq<u128>, servers: Seq<Seq<char>>) -> Seq<(u128, Seq<char>)> {
    Seq::new(ids.len(), |i: int| (ids[i], servers[i]))
}

/// The chunks of a list of pairs.
pub open spec fn ids_of(pairs: Seq<(u128, Seq<char>)>) -> Seq<u128> {
    pairs.map_values(|p: (u128, Seq<char>)| p.0)
}

/// The servers of a list of pairs.
pub open spec fn servers_of(pairs: Seq<(u128, Seq<char>)>) -> Seq<Seq<char>> {
    pairs.map_values(|p: (u128, Seq<char>)| p.1)
}

/// The chunks among `handles` that the chunk map knows, each with its
/// server, in the order of `handles`.
pub open spec fn resolve(chunks: Map<u128, Seq<char>>, handles: Seq<u128>) -> Seq<(u128, Seq<char>)>
    decreases handles.len(),
{
    if handles.len() == 0 {
        Seq::empty()
    } else {
        let before = resolve(chunks, handles.drop_last());
        if chunks.contains_key(handles.last()) {
            before.push((handles.last(), chunks[handles.last()]))
        } else {
            before
        }
    }
}

/// `chosen` holds the items of `from` at the positions `picks`, no
/// position twice.
pub open spec fn is_selection(picks: Seq<int>, from: Seq<Seq<char>>, chosen: Seq<Seq<char>>) -> bool {
    &&& picks.len() == chosen.len()
    &&& picks.no_duplicates()
    &&& forall|j: int|
        0 <= j < picks.len() ==> 0 <= #[trigger] picks[j] < from.len() && chosen[j]
            == from[picks[j]]
}

/// `amount` of `servers`, or all of them where there are fewer, picked at
/// random without repetition and in random order: `choose_multiple` of
/// `rand::seq::SliceRandom` with `rand::thread_rng`. Which ones come back
/// is open; they always stand at distinct positions of `servers`. The call
/// gives up only where the operating system's random source fails.
#[verifier::external_body]
fn choose_multiple(servers: &Vec<String>, amount: usize) -> (chosen: Vec<String>)
    ensures
        chosen@.len() == (if amount <= servers@.len() {
            amount as int
        } else {
            servers@.len() as int
        }),
        exists|picks: Seq<int>| #[trigger]
            is_selection(picks, servers.deep_view(), chosen.deep_view()),
{
    let mut rng = rand::thread_rng();
    rand::seq::SliceRandom::choose_multiple(servers.as_slice(), &mut rng, amount).cloned().collect()
}

/// Placing keeps what was known: every chunk keeps its server, every server
/// stays live and keeps its chunks in front of the new ones.
pub proof fn lemma_placement_extends(v: ChunkTablesView, ids: Seq<u128>, servers: Seq<Seq<char>>)
    requires
        placement_valid(v, ids, servers),
    ensures
        with_placement(v, ids, servers).servers.dom() == v.servers.dom(),
        with_placement(v, ids, servers).chunks.dom() == v.chunks.dom().union(ids.to_set()),
        forall|c: u128| #[trigger]
            v.chunks.contains_key(c) ==> with_placement(v, ids, servers).chunks[c] == v.chunks[c],
        forall|s: Seq<char>| #[trigger]
            v.servers.contains_key(s) ==> v.servers[s].is_prefix_of(
                with_placement(v, ids, servers).servers[s],
            ),
    decreases ids.len(),
{
    if ids.len() == 0 {
        assert(ids.to_set() =~= Set::<u128>::empty());
        assert(v.chunks.dom().union(ids.to_set()) =~= v.chunks.dom());
    } else {
        let ids0 = ids.drop_last();
        let servers0 = servers.drop_last();
        assert(placement_valid(v, ids0, servers0)) by {
            assert forall|i: int| 0 <= i < ids0.len() implies !v.chunks.contains_key(
                #[trigger] ids0[i],
            ) by {
                assert(ids0[i] == ids[i]);
            }
            assert forall|i: int| 0 <= i < servers0.len() implies v.servers.contains_key(
                #[trigger] servers0[i],
            ) by {
                assert(servers0[i] == servers[i]);
            }
        }
        lemma_placement_extends(v, ids0, servers0);
        let before = with_placement(v, ids0, servers0);
        let after = with_placement(v, ids, servers);
        assert(v.servers.contains_key(servers[servers.len() - 1]));
        assert(before.servers.dom().contains(servers.last()));
        assert(after.servers.dom() =~= v.servers.dom());
        assert(ids =~= ids0.push(ids.last()));
        assert(ids.to_set() =~= ids0.to_set().insert(ids.last())) by {
            assert forall|c: u128| ids.to_set().contains(c) <==> ids0.to_set().insert(
                ids.last(),
            ).contains(c) by {
                if ids0.contains(c) {
                    let i = choose|i: int| 0 <= i < ids0.len() && ids0[i] == c;
                    assert(ids[i] == c);
                }
                if ids.contains(c) {
                    let i = choose|i: int| 0 <= i < ids.len() && ids[i] == c;
                    if i < ids0.len() {
                        assert(ids0[i] == c);
                    }
                }
                assert(ids[ids.len() - 1] == ids.last());
            }
        }
        assert(after.chunks.dom() =~= v.chunks.dom().union(ids.to_set()));
        assert forall|c: u128| #[trigger] v.chunks.contains_key(c) implies after.chunks[c]
            == v.chunks[c] by {
            assert(ids[ids.len() - 1] == ids.last());
            assert(before.chunks.dom().contains(c));
        }
        assert forall|s: Seq<char>| #[trigger] v.servers.contains_key(s) implies v.servers[s].is_prefix_of(
        after.servers[s]) by {
            assert(v.servers[s].is_prefix_of(before.servers[s]));
            if s == servers.last() {
                assert(before.servers[s].is_prefix_of(after.servers[s]));
            }
        }
    }
}

/// After a valid placement every placed chunk records its server, and that
/// server lists the chunk.
pub proof fn lemma_placement_recorded(
    v: ChunkTablesView,
    ids: Seq<u128>,
    servers: Seq<Seq<char>>,
    i: int,
)
    requires
        placement_valid(v, ids, servers),
        0 <= i < ids.len(),
    ensures
        with_placement(v, ids, servers).chunks.contains_key(ids[i]),
        with_placement(v, ids, servers).chunks[ids[i]] == servers[i],
        with_placement(v, ids, servers).servers.contains_key(servers[i]),
        with_placement(v, ids, servers).servers[servers[i]].contains(ids[i]),
    decreases ids.len(),
{
    let ids0 = ids.drop_last();
    let servers0 = servers.drop_last();
    assert(placement_valid(v, ids0, servers0)) by {
        assert forall|j: int| 0 <= j < ids0.len() implies !v.chunks.contains_key(
            #[trigger] ids0[j],
        ) by {
            assert(ids0[j] == ids[j]);
        }
        assert forall|j: int| 0 <= j < servers0.len() implies v.servers.contains_key(
            #[trigger] servers0[j],
        ) by {
            assert(servers0[j] == servers[j]);
        }
    }
    lemma_placement_extends(v, ids0, servers0);
    let before = with_placement(v, ids0, servers0);
    let after = with_placement(v, ids, servers);
    let last = ids.len() - 1;
    assert(v.servers.contains_key(servers[last]));
    assert(before.servers.dom().contains(servers[last]));
    if i == last {
        let list = before.servers[servers[last]].push(ids[last]);
        assert(list[list.len() - 1] == ids[last]);
    } else {
        lemma_placement_recorded(v, ids0, servers0, i);
        assert(ids[i] != ids[last]);
        assert(servers[i] != servers[last]);
    }
}

/// A valid placement keeps the maps consistent.
pub proof fn lemma_placement_consistent(v: ChunkTablesView, ids: Seq<u128>, servers: Seq<Seq<char>>)
    requires
        consistent(v),
        placement_valid(v, ids, servers),
    ensures
        consistent(with_placement(v, ids, servers)),
{
    let after = with_placement(v, ids, servers);
    lemma_placement_extends(v, ids, servers);
    assert forall|c: u128| #[trigger] after.chunks.contains_key(c) implies after.servers.contains_key(
        after.chunks[c],
    ) && after.servers[after.chunks[c]].contains(c) by {
        assert(after.chunks.dom().contains(c));
        if v.chunks.contains_key(c) {
            let s = v.chunks[c];
            assert(v.servers.contains_key(s));
            assert(after.servers.dom().contains(s));
            assert(v.servers[s].is_prefix_of(after.servers[s]));
            let k = choose|k: int| 0 <= k < v.servers[s].len() && v.servers[s][k] == c;
            assert(after.servers[s][k] == c);
        } else {
            assert(ids.to_set().contains(c));
            let i = choose|i: int| 0 <= i < ids.len() && ids[i] == c;
            lemma_placement_recorded(v, ids, servers, i);
        }
    }
}

/// A valid placement of `REPLICAS` chunks gives exactly that many pairs,
/// with distinct chunks and distinct servers.
pub proof fn lemma_placed_pairs_distinct(
    v: ChunkTablesView,
    ids: Seq<u128>,
    servers: Seq<Seq<char>>,
)
    requires
        placement_valid(v, ids, servers),
        ids.len() == REPLICAS,
    ensures
        pair_up(ids, servers).len() == REPLICAS,
        ids_of(pair_up(ids, servers)) == ids,
        servers_of(pair_up(ids, servers)) == servers,
        ids_of(pair_up(ids, servers)).no_duplicates(),
        servers_of(pair_up(ids, servers)).no_duplicates(),
{
    assert(ids_of(pair_up(ids, servers)) =~= ids);
    assert(servers_of(pair_up(ids, servers)) =~= servers);
}

/// Every chunk of `ids` is known to the chunk map.
pub open spec fn all_known(chunks: Map<u128, Seq<char>>, ids: Seq<u128>) -> bool {
    forall|i: int| 0 <= i < ids.len() ==> chunks.contains_key(#[trigger] ids[i])
}

/// The chunks of a placement resolve to its pairs.
pub proof fn lemma_resolve_placed(v: ChunkTablesView, ids: Seq<u128>, servers: Seq<Seq<char>>)
    requires
        placement_valid(v, ids, servers),
    ensures
        resolve(with_placement(v, ids, servers).chunks, ids) == pair_up(ids, servers),
{
    let after = with_placement(v, ids, servers).chunks;
    assert forall|i: int| 0 <= i < ids.len() implies after.contains_key(#[trigger] ids[i])
        && after[ids[i]] == servers[i] by {
        lemma_placement_recorded(v, ids, servers, i);
    }
    lemma_resolve_known(after, ids);
    assert(resolve(after, ids) =~= pair_up(ids, servers));
}

/// Known chunks resolve one by one, in place.
pub proof fn lemma_resolve_known(chunks: Map<u128, Seq<char>>, ids: Seq<u128>)
    requires
        all_known(chunks, ids),
    ensures
        resolve(chunks, ids).len() == ids.len(),
        forall|i: int|
            0 <= i < ids.len() ==> (#[trigger] resolve(chunks, ids)[i]) == (ids[i], chunks[ids[i]]),
    decreases ids.len(),
{
    if ids.len() > 0 {
        let d = ids.drop_last();
        assert forall|i: int| 0 <= i < d.len() implies chunks.contains_key(#[trigger] d[i]) by {
            assert(d[i] == ids[i]);
        }
        lemma_resolve_known(chunks, d);
        assert(chunks.contains_key(ids[ids.len() - 1]));
        assert forall|i: int| 0 <= i < ids.len() implies (#[trigger] resolve(chunks, ids)[i]) == (
            ids[i],
            chunks[ids[i]],
        ) by {
            if i < d.len() {
                assert(resolve(chunks, ids)[i] == resolve(chunks, d)[i]);
                assert(d[i] == ids[i]);
            }
        }
    }
}

/// Chunks that were known before a placement resolve as before.
pub proof fn lemma_resolve_unchanged(
    v: ChunkTablesView,
    ids: Seq<u128>,
    servers: Seq<Seq<char>>,
    known: Seq<u128>,
)
    requires
        placement_valid(v, ids, servers),
        all_known(v.chunks, known),
    ensures
        resolve(with_placement(v, ids, servers).chunks, known) == resolve(v.chunks, known),
        all_known(with_placement(v, ids, servers).chunks, known),
{
    let after = with_placement(v, ids, servers).chunks;
    lemma_placement_extends(v, ids, servers);
    assert forall|i: int| 0 <= i < known.len() implies after.contains_key(#[trigger] known[i])
        && after[known[i]] == v.chunks[known[i]] by {
        assert(v.chunks.contains_key(known[i]));
        assert(after.dom().contains(known[i]));
    }
    lemma_resolve_known(after, known);
    lemma_resolve_known(v.chunks, known);
    assert(resolve(after, known) =~= resolve(v.chunks, known));
}

/// A valid placement brings no address with a comma into the maps.
pub proof fn lemma_placement_plain(v: ChunkTablesView, ids: Seq<u128>, servers: Seq<Seq<char>>)
    requires
        placement_valid(v, ids, servers),
        plain_servers(v.servers),
        plain_locations(v.chunks),
    ensures
        plain_servers(with_placement(v, ids, servers).servers),
        plain_locations(with_placement(v, ids, servers).chunks),
{
    let after = with_placement(v, ids, servers);
    lemma_placement_extends(v, ids, servers);
    assert forall|s: Seq<char>| #[trigger] after.servers.contains_key(s) implies free_of(s, ',') by {
        assert(after.servers.dom().contains(s));
        assert(v.servers.contains_key(s));
    }
    assert forall|c: u128| #[trigger] after.chunks.contains_key(c) implies free_of(
        after.chunks[c],
        ',',
    ) by {
        assert(after.chunks.dom().contains(c));
        if v.chunks.contains_key(c) {
        } else {
            assert(ids.to_set().contains(c));
            let i = choose|i: int| 0 <= i < ids.len() && ids[i] == c;
            lemma_placement_recorded(v, ids, servers, i);
            assert(v.servers.contains_key(servers[i]));
        }
    }
}

impl ChunkTables {
    /// Both maps are initialised.
    pub closed spec fn initialised(&self) -> bool {
        self.chunk_map@ is Some && self.server_map@ is Some
    }

    /// Both maps are initialised, and no server address in them holds a
    /// comma, so that every stored line reads back as it was written.
    pub open spec fn wf(&self) -> bool {
        &&& self.initialised()
        &&& plain_servers(self@.servers)
        &&& plain_locations(self@.chunks)
    }

    pub closed spec fn view(&self) -> ChunkTablesView {
        ChunkTablesView { chunks: self.chunk_map@->0, servers: self.server_map@->0 }
    }

    /// Two initialised, empty maps.
    pub fn new() -> (tables: Self)
        ensures
            tables.wf(),
            tables@.chunks == Map::<u128, Seq<char>>::empty(),
            tables@.servers == Map::<Seq<char>, Seq<u128>>::empty(),
    {
        let mut chunk_map: SafeMap<u128, String> = SafeMap::new();
        let mut server_map: SafeMap<String, Vec<u128>> = SafeMap::new();
        chunk_map.init();
        server_map.init();
        ChunkTables { chunk_map, server_map }
    }

    /// Whether `ids` can be placed on `servers`.
    fn placement_ok(&self, ids: &Vec<u128>, servers: &Vec<String>) -> (ok: bool)
        requires
            self.wf(),
        ensures
            ok == placement_valid(self@, ids@, servers.deep_view()),
    {
        let ghost sv = servers.deep_view();
        if ids.len() != servers.len() {
            return false;
        }
        let mut i: usize = 0;
        while i < ids.len()
            invariant
                self.wf(),
                sv == servers.deep_view(),
                ids@.len() == servers@.len(),
                i <= ids@.len(),
                forall|a: int, b: int| 0 <= a < b < i ==> ids@[a] != ids@[b],
                forall|a: int, b: int| 0 <= a < b < i ==> sv[a] != sv[b],
                forall|a: int| 0 <= a < i ==> !self@.chunks.contains_key(#[trigger] ids@[a]),
                forall|a: int| 0 <= a < i ==> self@.servers.contains_key(#[trigger] sv[a]),
            decreases ids@.len() - i,
        {
            assert(sv[i as int] == servers@[i as int]@);
            if self.chunk_map.get(&ids[i]).is_some() {
                assert(self@.chunks.contains_key(ids@[i as int]));
                return false;
            }
            if self.server_map.get(&servers[i]).is_none() {
                assert(!self@.servers.contains_key(sv[i as int]));
                return false;
            }
            let mut j: usize = 0;
            while j < i
                invariant
                    sv == servers.deep_view(),
                    ids@.len() == servers@.len(),
                    i < ids@.len(),
                    j <= i,
                    forall|a: int| 0 <= a < j ==> ids@[a] != ids@[i as int],
                    forall|a: int| 0 <= a < j ==> sv[a] != sv[i as int],
                decreases i - j,
            {
                assert(sv[j as int] == servers@[j as int]@);
                assert(sv[i as int] == servers@[i as int]@);
                if ids[j] == ids[i] {
                    return false;
                }
                if servers[j] == servers[i] {
                    return false;
                }
                j += 1;
            }
            i += 1;
        }
        true
    }
}

/// Records `ids` on `servers`, the `i`-th identifier on the `i`-th server,
/// and returns the pairs. Where they cannot be placed, nothing changes and
/// nothing is returned.
pub fn place(tables: &mut ChunkTables, ids: Vec<u128>, servers: Vec<String>) -> (placed: Vec<
    (u128, String),
>)
    requires
        old(tables).wf(),
    ensures
        final(tables).wf(),
        placement_valid(old(tables)@, ids@, servers.deep_view()) ==> final(tables)@
            == with_placement(old(tables)@, ids@, servers.deep_view()) && placed.deep_view()
            == pair_up(ids@, servers.deep_view()),
        !placement_valid(old(tables)@, ids@, servers.deep_view()) ==> final(tables)@ == old(tables)@ && placed@.len() == 0,
        consistent(old(tables)@) ==> consistent(final(tables)@),
{
    let mut placed: Vec<(u128, String)> = Vec::new();
    if !tables.placement_ok(&ids, &servers) {
        return placed;
    }
    let ghost start = tables@;
    let ghost sv = servers.deep_view();
    let mut i: usize = 0;
    assert(ids@.take(0) =~= Seq::<u128>::empty());
    assert(placed.deep_view() =~= pair_up(ids@.take(0), sv.take(0)));
    while i < ids.len()
        invariant
            tables.initialised(),
            sv == servers.deep_view(),
            placement_valid(start, ids@, sv),
            i <= ids@.len(),
            tables@ == with_placement(start, ids@.take(i as int), sv.take(i as int)),
            placed.deep_view() == pair_up(ids@.take(i as int), sv.take(i as int)),
        decreases ids@.len() - i,
    {
        let ghost before = tables@;
        let ghost c = ids@[i as int];
        let ghost s = sv[i as int];
        proof {
            assert(s == servers@[i as int]@);
            assert(placement_valid(start, ids@.take(i as int), sv.take(i as int))) by {
                assert forall|a: int| 0 <= a < i implies !start.chunks.contains_key(
                    #[trigger] ids@.take(i as int)[a],
                ) by {
                    assert(ids@.take(i as int)[a] == ids@[a]);
                }
                assert forall|a: int| 0 <= a < i implies start.servers.contains_key(
                    #[trigger] sv.take(i as int)[a],
                ) by {
                    assert(sv.take(i as int)[a] == sv[a]);
                }
            }
            lemma_placement_extends(start, ids@.take(i as int), sv.take(i as int));
            assert(start.servers.contains_key(sv[i as int]));
            assert(before.servers.dom().contains(s));
            assert(ids@.take(i + 1).drop_last() =~= ids@.take(i as int));
            assert(sv.take(i + 1).drop_last() =~= sv.take(i as int));
        }
        let id = ids[i];
        let mut list = match tables.server_map.remove(&servers[i]) {
            Some(list) => list,
            None => Vec::new(),
        };
        let ghost listed = list.deep_view();
        list.push(id);
        assert(list.deep_view() =~= listed.push(c));
        tables.server_map.insert(servers[i].clone(), list);
        tables.chunk_map.insert(id, servers[i].clone());
        let ghost recorded = placed.deep_view();
        placed.push((id, servers[i].clone()));
        proof {
            assert(tables@.servers =~= before.servers.insert(s, before.servers[s].push(c)));
            assert(tables@.chunks =~= before.chunks.insert(c, s));
            assert(placed.deep_view() =~= recorded.push((c, s)));
            assert(placed.deep_view() =~= pair_up(ids@.take(i + 1), sv.take(i + 1)));
        }
        i += 1;
    }
    proof {
        assert(ids@.take(i as int) =~= ids@);
        assert(sv.take(i as int) =~= sv);
        lemma_placement_plain(start, ids@, sv);
        if consistent(start) {
            lemma_placement_consistent(start, ids@, sv);
        }
    }
    placed
}

/// Whether `id` is in use: known to the chunk map or among `taken`.
pub open spec fn in_use(chunks: Map<u128, Seq<char>>, taken: Seq<u128>, id: u128) -> bool {
    chunks.contains_key(id) || taken.contains(id)
}

/// Whether `id` is the identifier to take where `candidate` was drawn: the
/// candidate itself where it is not in use, else the least identifier
/// that is not in use.
pub open spec fn fresh_choice(
    chunks: Map<u128, Seq<char>>,
    taken: Seq<u128>,
    candidate: u128,
    id: u128,
) -> bool {
    &&& !in_use(chunks, taken, id)
    &&& !in_use(chunks, taken, candidate) ==> id == candidate
    &&& in_use(chunks, taken, candidate) ==> forall|j: u128| j < id ==> in_use(chunks, taken, j)
}

/// A finite set that holds every identifier below `c` has at least `c`
/// members.
pub proof fn lemma_prefix_count(s: Set<u128>, c: nat)
    requires
        s.finite(),
        c <= u128::MAX,
        forall|j: u128| j < c ==> s.contains(j),
    ensures
        c <= s.len(),
    decreases c,
{
    if c > 0 {
        let last = (c - 1) as u128;
        let rest = s.remove(last);
        assert(s.contains(last));
        assert forall|j: u128| j < c - 1 implies rest.contains(j) by {
            assert(s.contains(j));
        }
        lemma_prefix_count(rest, (c - 1) as nat);
        assert(s.len() == rest.len() + 1);
    }
}

/// Whether `id` is in use: known to the chunk map or among `taken`.
pub fn is_in_use(tables: &ChunkTables, taken: &Vec<u128>, id: u128) -> (used: bool)
    requires
        tables.wf(),
    ensures
        used == in_use(tables@.chunks, taken@, id),
{
    if tables.chunk_map.get(&id).is_some() {
        return true;
    }
    let mut i: usize = 0;
    while i < taken.len()
        invariant
            i <= taken@.len(),
            forall|j: int| 0 <= j < i ==> taken@[j] != id,
        decreases taken@.len() - i,
    {
        if taken[i] == id {
            return true;
        }
        i += 1;
    }
    false
}

/// The identifier to take where `candidate` was drawn: the candidate itself
/// where it is not in use, else the least identifier that is not in use.
pub fn fresh_id(tables: &ChunkTables, taken: &Vec<u128>, candidate: u128) -> (id: u128)
    requires
        tables.wf(),
    ensures
        fresh_choice(tables@.chunks, taken@, candidate, id),
{
    if !is_in_use(tables, taken, candidate) {
        return candidate;
    }
    let known = tables.chunk_map.len();
    let drawn = taken.len();
    let ghost used = tables@.chunks.dom().union(taken@.to_set());
    proof {
        vstd::seq_lib::seq_to_set_is_finite(taken@);
        taken@.lemma_cardinality_of_set();
        vstd::set_lib::lemma_len_union(tables@.chunks.dom(), taken@.to_set());
    }
    let mut c: u128 = 0;
    loop
        invariant
            tables.wf(),
            used == tables@.chunks.dom().union(taken@.to_set()),
            used.finite(),
            used.len() <= known + drawn,
            c <= used.len(),
            in_use(tables@.chunks, taken@, candidate),
            forall|j: u128| j < c ==> in_use(tables@.chunks, taken@, j),
        decreases used.len() - c,
    {
        if !is_in_use(tables, taken, c) {
            return c;
        }
        proof {
            assert forall|j: u128| j < c + 1 implies used.contains(j) by {
                assert(in_use(tables@.chunks, taken@, j));
            }
            lemma_prefix_count(used, (c + 1) as nat);
        }
        c = c + 1;
    }
}

/// Allocates one placement group: `REPLICAS` fresh chunk identifiers on as
/// many distinct live servers, picked at random. A group is placed exactly
/// where that many servers are live. An identifier that was drawn but is
/// in use gives way to the least one that is not.
pub fn write_chunks(tables: &mut ChunkTables, _size: usize) -> (placed: Vec<(u128, String)>)
    requires
        old(tables).wf(),
    ensures
        final(tables).wf(),
        old(tables)@.servers.dom().len() < REPLICAS ==> placed@.len() == 0,
        old(tables)@.servers.dom().len() >= REPLICAS ==> placed@.len() == REPLICAS,
        placed@.len() == 0 ==> final(tables)@ == old(tables)@,
        consistent(old(tables)@) ==> consistent(final(tables)@),
        placed@.len() != 0 ==> {
            &&& placed@.len() == REPLICAS
            &&& placement_valid(
                old(tables)@,
                ids_of(placed.deep_view()),
                servers_of(placed.deep_view()),
            )
            &&& final(tables)@ == with_placement(
                old(tables)@,
                ids_of(placed.deep_view()),
                servers_of(placed.deep_view()),
            )
        },
{
    let all_keys = tables.server_map.keys();
    let ghost live = all_keys.deep_view();
    proof {
        live.unique_seq_to_set();
    }
    if all_keys.len() < REPLICAS {
        return Vec::new();
    }
    let sample = choose_multiple(&all_keys, REPLICAS);
    let ghost servers = sample.deep_view();
    proof {
        let picks = choose|picks: Seq<int>| is_selection(picks, live, servers);
        assert forall|i: int, j: int|
            0 <= i < servers.len() && 0 <= j < servers.len() && i != j implies servers[i]
            != servers[j] by {
            assert(picks[i] != picks[j]);
            assert(live[picks[i]] != live[picks[j]]);
        }
        assert forall|i: int| 0 <= i < servers.len() implies tables@.servers.contains_key(
            #[trigger] servers[i],
        ) by {
            assert(live.to_set().contains(live[picks[i]]));
        }
    }
    let mut uuids: Vec<u128> = Vec::new();
    let mut n: usize = 0;
    while n < REPLICAS
        invariant
            tables.wf(),
            n <= REPLICAS,
            uuids@.len() == n,
            uuids@.no_duplicates(),
            forall|i: int| 0 <= i < n ==> !tables@.chunks.contains_key(#[trigger] uuids@[i]),
        decreases REPLICAS - n,
    {
        let id = fresh_id(tables, &uuids, random_id());
        let ghost before = uuids@;
        uuids.push(id);
        proof {
            assert forall|i: int, j: int|
                0 <= i < uuids@.len() && 0 <= j < uuids@.len() && i != j implies uuids@[i]
                != uuids@[j] by {
                if i < n && j < n {
                    assert(before[i] != before[j]);
                } else if i < n {
                    assert(before.contains(before[i]));
                } else {
                    assert(before.contains(before[j]));
                }
            }
        }
        n += 1;
    }
    let ghost ids = uuids@;
    assert(placement_valid(tables@, ids, servers));
    let placed = place(tables, uuids, sample);
    proof {
        assert(ids_of(pair_up(ids, servers)) =~= ids);
        assert(servers_of(pair_up(ids, servers)) =~= servers);
    }
    placed
}

/// The server map with the server at `address` admitted with no chunks,
/// unless it is already live.
pub open spec fn with_server(servers: Map<Seq<char>, Seq<u128>>, address: Seq<char>) -> Map<
    Seq<char>,
    Seq<u128>,
> {
    if servers.contains_key(address) {
        servers
    } else {
        servers.insert(address, Seq::<u128>::empty())
    }
}

/// Admits the server at `address` with no chunks, unless it is already
/// live. An address that holds a comma is refused with `InvalidInput`: it
/// could not be stored and read back.
pub fn add_server(tables: &mut ChunkTables, address: String) -> (r: Result<(), FsError>)
    requires
        old(tables).wf(),
    ensures
        final(tables).wf(),
        final(tables)@.chunks == old(tables)@.chunks,
        free_of(address@, ',') ==> r is Ok && final(tables)@.servers == with_server(
            old(tables)@.servers,
            address@,
        ),
        !free_of(address@, ',') ==> r == Err::<(), FsError>(FsError::InvalidInput) && final(tables)@ == old(tables)@,
{
    if holds_char(address.as_str(), ',') {
        return Err(FsError::InvalidInput);
    }
    if tables.server_map.get(&address).is_none() {
        let list: Vec<u128> = Vec::new();
        assert(list.deep_view() =~= Seq::<u128>::empty());
        tables.server_map.insert(address, list);
    }
    Ok(())
}

/// Admitting a server keeps the maps consistent.
pub proof fn lemma_add_server_consistent(v: ChunkTablesView, address: Seq<char>)
    requires
        consistent(v),
        !v.servers.contains_key(address),
    ensures
        consistent(
            ChunkTablesView {
                chunks: v.chunks,
                servers: v.servers.insert(address, Seq::<u128>::empty()),
            },
        ),
{
    let after = ChunkTablesView {
        chunks: v.chunks,
        servers: v.servers.insert(address, Seq::<u128>::empty()),
    };
    assert forall|c: u128| #[trigger] after.chunks.contains_key(c) implies after.servers.contains_key(
        after.chunks[c],
    ) && after.servers[after.chunks[c]].contains(c) by {
        assert(v.servers.contains_key(v.chunks[c]));
    }
}

/// The known chunks among `chunk_handles`, each with its server, in the
/// order of `chunk_handles`.
pub fn get_chunks(tables: &ChunkTables, chunk_handles: Vec<u128>) -> (tuples: Vec<(u128, String)>)
    requires
        tables.wf(),
    ensures
        tuples.deep_view() == resolve(tables@.chunks, chunk_handles@),
{
    let mut tuples: Vec<(u128, String)> = Vec::new();
    let mut i: usize = 0;
    assert(chunk_handles@.take(0) =~= Seq::<u128>::empty());
    assert(tuples.deep_view() =~= Seq::<(u128, Seq<char>)>::empty());
    while i < chunk_handles.len()
        invariant
            tables.wf(),
            i <= chunk_handles@.len(),
            tuples.deep_view() == resolve(tables@.chunks, chunk_handles@.take(i as int)),
        decreases chunk_handles@.len() - i,
    {
        assert(chunk_handles@.take(i + 1).drop_last() =~= chunk_handles@.take(i as int));
        let id = chunk_handles[i];
        let ghost found = tuples.deep_view();
        match tables.chunk_map.get(&id) {
            Some(server) => {
                tuples.push((id, server.clone()));
                assert(tuples.deep_view() =~= found.push((id, tables@.chunks[id])));
            },
            None => {},
        }
        i += 1;
    }
    assert(chunk_handles@.take(i as int) =~= chunk_handles@);
    tuples
}

/// The stored line of a chunk: its identifier, a comma, its server.
pub open spec fn chunk_line(id: u128, server: Seq<char>) -> Seq<char> {
    id_text(id).push(',') + server
}

/// The chunk and the server that a stored line denotes: its first two
/// fields, the first of which must denote an identifier.
pub open spec fn parse_chunk_line(line: Seq<char>) -> Option<(u128, Seq<char>)> {
    let fields = split_spec(line, ',');
    if fields.len() < 2 {
        None
    } else {
        match id_parse(fields[0]) {
            Some(id) => Some((id, fields[1])),
            None => None,
        }
    }
}

/// The pairs that stored chunk lines denote, in order, if every line
/// denotes one.
pub open spec fn parsed_chunk_lines(lines: Seq<Seq<char>>) -> Option<Seq<(u128, Seq<char>)>>
    decreases lines.len(),
{
    if lines.len() == 0 {
        Some(Seq::empty())
    } else {
        match (parsed_chunk_lines(lines.drop_last()), parse_chunk_line(lines.last())) {
            (Some(pairs), Some(pair)) => Some(pairs.push(pair)),
            _ => None,
        }
    }
}

/// The stored line of a server: its address, then a comma and an
/// identifier for each of its chunks.
pub open spec fn server_line(server: Seq<char>, ids: Seq<u128>) -> Seq<char> {
    join_spec(seq![server] + group_text(ids), ',')
}

/// The server and the chunks that a stored line denotes: its first field,
/// and the identifiers that the other fields must denote.
pub open spec fn parse_server_line(line: Seq<char>) -> Option<(Seq<char>, Seq<u128>)> {
    let fields = split_spec(line, ',');
    match parse_group(fields.subrange(1, fields.len() as int)) {
        Some(ids) => Some((fields[0], ids)),
        None => None,
    }
}

/// The pairs that stored server lines denote, in order, if every line
/// denotes one.
pub open spec fn parsed_server_lines(lines: Seq<Seq<char>>) -> Option<Seq<(Seq<char>, Seq<u128>)>>
    decreases lines.len(),
{
    if lines.len() == 0 {
        Some(Seq::empty())
    } else {
        match (parsed_server_lines(lines.drop_last()), parse_server_line(lines.last())) {
            (Some(pairs), Some(pair)) => Some(pairs.push(pair)),
            _ => None,
        }
    }
}

/// The chunk map that stored lines denote, a later line replacing an
/// earlier one for the same chunk.
pub open spec fn restored_chunks(lines: Seq<Seq<char>>) -> Option<Map<u128, Seq<char>>> {
    match parsed_chunk_lines(lines) {
        Some(pairs) => Some(map_of(pairs)),
        None => None,
    }
}

/// The server map that stored lines denote, a later line replacing an
/// earlier one for the same server.
pub open spec fn restored_servers(lines: Seq<Seq<char>>) -> Option<Map<Seq<char>, Seq<u128>>> {
    match parsed_server_lines(lines) {
        Some(pairs) => Some(map_of(pairs)),
        None => None,
    }
}

/// Where a front part of the lines denotes no pairs, the whole does not.
pub proof fn lemma_parsed_chunk_lines_prefix(lines: Seq<Seq<char>>, n: int)
    requires
        0 <= n <= lines.len(),
        parsed_chunk_lines(lines.take(n)) is None,
    ensures
        parsed_chunk_lines(lines) is None,
    decreases lines.len() - n,
{
    if n < lines.len() {
        assert(lines.take(n + 1).drop_last() =~= lines.take(n));
        lemma_parsed_chunk_lines_prefix(lines, n + 1);
    } else {
        assert(lines.take(n) =~= lines);
    }
}

/// Where a front part of the lines denotes no pairs, the whole does not.
pub proof fn lemma_parsed_server_lines_prefix(lines: Seq<Seq<char>>, n: int)
    requires
        0 <= n <= lines.len(),
        parsed_server_lines(lines.take(n)) is None,
    ensures
        parsed_server_lines(lines) is None,
    decreases lines.len() - n,
{
    if n < lines.len() {
        assert(lines.take(n + 1).drop_last() =~= lines.take(n));
        lemma_parsed_server_lines_prefix(lines, n + 1);
    } else {
        assert(lines.take(n) =~= lines);
    }
}

/// The line of a chunk denotes the chunk and its server, where the
/// address holds no comma and the identifier's text is read back.
pub proof fn lemma_chunk_line_parses(id: u128, server: Seq<char>)
    requires
        free_of(server, ','),
        id_parse(id_text(id)) == Some(id),
    ensures
        parse_chunk_line(chunk_line(id, server)) == Some((id, server)),
{
    let fields = seq![id_text(id), server];
    lemma_id_text_plain(id);
    assert forall|i: int| 0 <= i < fields.len() implies free_of(#[trigger] fields[i], ',') by {}
    lemma_split_join(fields, ',');
    assert(fields.drop_last() =~= seq![id_text(id)]);
    assert(join_spec(seq![id_text(id)], ',') == id_text(id));
    assert(join_spec(fields, ',') == chunk_line(id, server));
}

/// The line of a server denotes the server and its chunks, where the
/// address holds no comma and the identifiers' texts are read back.
pub proof fn lemma_server_line_parses(server: Seq<char>, ids: Seq<u128>)
    requires
        free_of(server, ','),
        parse_group(group_text(ids)) == Some(ids),
    ensures
        parse_server_line(server_line(server, ids)) == Some((server, ids)),
{
    let fields = seq![server] + group_text(ids);
    assert forall|i: int| 0 <= i < fields.len() implies free_of(#[trigger] fields[i], ',') by {
        if i > 0 {
            lemma_id_text_plain(ids[i - 1]);
            assert(fields[i] == id_text(ids[i - 1]));
        }
    }
    lemma_split_join(fields, ',');
    assert(fields.subrange(1, fields.len() as int) =~= group_text(ids));
}

/// `lines` holds one line for each pair, in order.
pub open spec fn chunk_lines_of(pairs: Seq<(u128, Seq<char>)>) -> Seq<Seq<char>> {
    pairs.map_values(|p: (u128, Seq<char>)| chunk_line(p.0, p.1))
}

/// `lines` holds one line for each pair, in order.
pub open spec fn server_lines_of(pairs: Seq<(Seq<char>, Seq<u128>)>) -> Seq<Seq<char>> {
    pairs.map_values(|p: (Seq<char>, Seq<u128>)| server_line(p.0, p.1))
}

/// No server address in the chunk map holds a comma.
pub open spec fn plain_locations(chunks: Map<u128, Seq<char>>) -> bool {
    forall|c: u128| #[trigger] chunks.contains_key(c) ==> free_of(chunks[c], ',')
}

/// No address of a live server holds a comma.
pub open spec fn plain_servers(servers: Map<Seq<char>, Seq<u128>>) -> bool {
    forall|s: Seq<char>| #[trigger] servers.contains_key(s) ==> free_of(s, ',')
}

/// The pair that one stored chunk line denotes, or `InvalidInput`.
pub fn read_chunk_line(line: &str) -> (r: Result<(u128, String), FsError>)
    ensures
        match parse_chunk_line(line@) {
            Some(pair) => r matches Ok(p) && p.deep_view() == pair,
            None => r matches Err(e) && e == FsError::InvalidInput,
        },
        r matches Ok(p) ==> free_of(p.1@, ','),
{
    let fields = split_fields(line, ',');
    proof {
        lemma_split_fields_free(line@, ',');
    }
    if fields.len() < 2 {
        return Err(FsError::InvalidInput);
    }
    assert(fields.deep_view()[0] == fields@[0]@);
    assert(fields.deep_view()[1] == fields@[1]@);
    match parse_chunk_id(fields[0].as_str()) {
        Ok(id) => Ok((id, fields[1].clone())),
        Err(e) => Err(e),
    }
}

/// The pair that one stored server line denotes, or `InvalidInput`.
pub fn read_server_line(line: &str) -> (r: Result<(String, Vec<u128>), FsError>)
    ensures
        match parse_server_line(line@) {
            Some(pair) => r matches Ok(p) && p.deep_view() == pair,
            None => r matches Err(e) && e == FsError::InvalidInput,
        },
        r matches Ok(p) ==> free_of(p.0@, ','),
{
    let fields = split_fields(line, ',');
    proof {
        lemma_split_nonempty(line@, ',');
        lemma_split_fields_free(line@, ',');
    }
    let ghost fv = fields.deep_view();
    let ghost rest = fv.subrange(1, fv.len() as int);
    let mut ids: Vec<u128> = Vec::new();
    let mut j: usize = 1;
    assert(rest.take(0) =~= Seq::<Seq<char>>::empty());
    while j < fields.len()
        invariant
            fv == fields.deep_view(),
            fv == split_spec(line@, ','),
            fv.len() == fields@.len(),
            rest.len() == fv.len() - 1,
            forall|k: int| 0 <= k < rest.len() ==> rest[k] == fv[k + 1],
            1 <= j <= fields@.len(),
            parse_group(rest.take(j - 1)) == Some(ids@),
        decreases fields@.len() - j,
    {
        proof {
            let front = rest.take(j as int);
            assert(front.drop_last() =~= rest.take(j - 1));
            assert(front.last() == rest[j - 1]);
            assert(fv[j as int] == fields@[j as int]@);
        }
        match parse_chunk_id(fields[j].as_str()) {
            Ok(id) => {
                ids.push(id);
            },
            Err(e) => {
                proof {
                    lemma_parse_group_prefix(rest, j as int);
                    assert(rest =~= fv.subrange(1, fv.len() as int));
                }
                return Err(e);
            },
        }
        j += 1;
    }
    proof {
        assert(rest.take(j - 1) =~= rest);
        assert(rest =~= fv.subrange(1, fv.len() as int));
        assert(fv[0] == fields@[0]@);
        assert(ids.deep_view() =~= ids@);
    }
    Ok((fields[0].clone(), ids))
}

/// One line for each chunk: its identifier, a comma, its server. The
/// lines denote the chunk map again.
pub fn save_chunk_map(tables: &ChunkTables) -> (lines: Vec<String>)
    requires
        tables.wf(),
    ensures
        restored_chunks(lines.deep_view()) == Some(tables@.chunks),
        exists|pairs: Seq<(u128, Seq<char>)>|
            {
                &&& distinct_keys(pairs)
                &&& map_of(pairs) == tables@.chunks
                &&& #[trigger] chunk_lines_of(pairs) == lines.deep_view()
                &&& parsed_chunk_lines(lines.deep_view()) == Some(pairs)
            },
{
    let entries = tables.chunk_map.to_map();
    let ghost pairs = entries.deep_view();
    let mut lines: Vec<String> = Vec::new();
    let mut i: usize = 0;
    assert(pairs.take(0) =~= Seq::<(u128, Seq<char>)>::empty());
    assert(lines.deep_view() =~= chunk_lines_of(pairs.take(0)));
    while i < entries.len()
        invariant
            pairs == entries.deep_view(),
            distinct_keys(pairs),
            map_of(pairs) == tables@.chunks,
            i <= entries@.len(),
            lines.deep_view() == chunk_lines_of(pairs.take(i as int)),
            plain_locations(tables@.chunks),
            parsed_chunk_lines(lines.deep_view()) == Some(pairs.take(i as int)),
        decreases entries@.len() - i,
    {
        let ghost done = lines.deep_view();
        let mut line = chunk_id_text(entries[i].0);
        proof {
            reveal_strlit(",");
        }
        line.append(",");
        line.append(entries[i].1.as_str());
        proof {
            let pair = pairs[i as int];
            assert(pair == entries@[i as int].deep_view());
            assert(id_text(pair.0) + ","@ =~= id_text(pair.0).push(','));
            assert(line@ =~= chunk_line(pair.0, pair.1));
            lemma_map_of_index(pairs, i as int);
            assert(tables@.chunks.contains_key(pair.0));
            lemma_chunk_line_parses(pair.0, pair.1);
            assert(pairs.take(i + 1) =~= pairs.take(i as int).push(pair));
        }
        lines.push(line);
        proof {
            assert(lines.deep_view() =~= done.push(chunk_line(pairs[i as int].0, pairs[i as int].1)));
            assert(lines.deep_view().drop_last() =~= done);
            assert(lines.deep_view() =~= chunk_lines_of(pairs.take(i + 1)));
        }
        i += 1;
    }
    assert(pairs.take(i as int) =~= pairs);
    lines
}

/// One line for each live server: its address, then a comma and an
/// identifier for each of its chunks. The lines denote the server map
/// again.
pub fn save_server_map(tables: &ChunkTables) -> (lines: Vec<String>)
    requires
        tables.wf(),
    ensures
        restored_servers(lines.deep_view()) == Some(tables@.servers),
        exists|pairs: Seq<(Seq<char>, Seq<u128>)>|
            {
                &&& distinct_keys(pairs)
                &&& map_of(pairs) == tables@.servers
                &&& #[trigger] server_lines_of(pairs) == lines.deep_view()
                &&& parsed_server_lines(lines.deep_view()) == Some(pairs)
            },
{
    let entries = tables.server_map.to_map();
    let ghost pairs = entries.deep_view();
    let mut lines: Vec<String> = Vec::new();
    let mut i: usize = 0;
    assert(pairs.take(0) =~= Seq::<(Seq<char>, Seq<u128>)>::empty());
    assert(lines.deep_view() =~= server_lines_of(pairs.take(0)));
    while i < entries.len()
        invariant
            pairs == entries.deep_view(),
            distinct_keys(pairs),
            map_of(pairs) == tables@.servers,
            i <= entries@.len(),
            lines.deep_view() == server_lines_of(pairs.take(i as int)),
            plain_servers(tables@.servers),
            parsed_server_lines(lines.deep_view()) == Some(pairs.take(i as int)),
        decreases entries@.len() - i,
    {
        let ghost done = lines.deep_view();
        let ghost pair = pairs[i as int];
        let texts = group_to_text(&entries[i].1);
        let ghost fields = seq![pair.0] + group_text(pair.1);
        let mut line = entries[i].0.clone();
        let mut k: usize = 0;
        proof {
            assert(pair == entries@[i as int].deep_view());
            assert(entries@[i as int].1.deep_view() =~= entries@[i as int].1@);
            assert(fields.take(1) =~= seq![pair.0]);
        }
        while k < texts.len()
            invariant
                texts.deep_view() == group_text(pair.1),
                fields == seq![pair.0] + group_text(pair.1),
                k <= texts@.len(),
                line@ == join_spec(fields.take(k + 1), ','),
            decreases texts@.len() - k,
        {
            proof {
                reveal_strlit(",");
                assert(texts.deep_view()[k as int] == texts@[k as int]@);
                assert(fields.take(k + 2).drop_last() =~= fields.take(k + 1));
                assert(fields.take(k + 2).last() == texts@[k as int]@);
            }
            let ghost before = line@;
            line.append(",");
            line.append(texts[k].as_str());
            proof {
                assert(before + ","@ =~= before.push(','));
            }
            k += 1;
        }
        proof {
            assert(fields.take(k + 1) =~= fields);
            assert(line@ == server_line(pair.0, pair.1));
            lemma_map_of_index(pairs, i as int);
            assert(tables@.servers.contains_key(pair.0));
            lemma_server_line_parses(pair.0, pair.1);
            assert(pairs.take(i + 1) =~= pairs.take(i as int).push(pair));
        }
        lines.push(line);
        proof {
            assert(lines.deep_view() =~= done.push(server_line(pair.0, pair.1)));
            assert(lines.deep_view().drop_last() =~= done);
            assert(lines.deep_view() =~= server_lines_of(pairs.take(i + 1)));
        }
        i += 1;
    }
    assert(pairs.take(i as int) =~= pairs);
    lines
}

/// Adds the chunks that the stored lines denote to the chunk map, a later
/// line replacing an earlier one for the same chunk. Where a line denotes
/// nothing, nothing is added.
pub fn load_chunk_map(tables: &mut ChunkTables, lines: &Vec<String>) -> (r: Result<(), FsError>)
    requires
        old(tables).wf(),
    ensures
        final(tables).wf(),
        final(tables)@.servers == old(tables)@.servers,
        match parsed_chunk_lines(lines.deep_view()) {
            Some(pairs) => r is Ok && final(tables)@.chunks == insert_all(
                old(tables)@.chunks,
                pairs,
            ),
            None => r == Err::<(), FsError>(FsError::InvalidInput) && final(tables)@ == old(tables)@,
        },
{
    let ghost lv = lines.deep_view();
    let mut parsed: Vec<(u128, String)> = Vec::new();
    let mut i: usize = 0;
    assert(lv.take(0) =~= Seq::<Seq<char>>::empty());
    assert(parsed.deep_view() =~= Seq::<(u128, Seq<char>)>::empty());
    while i < lines.len()
        invariant
            tables.wf(),
            tables@ == old(tables)@,
            lv == lines.deep_view(),
            i <= lines@.len(),
            parsed_chunk_lines(lv.take(i as int)) == Some(parsed.deep_view()),
            forall|k: int| 0 <= k < parsed@.len() ==> free_of(#[trigger] parsed@[k].1@, ','),
        decreases lines@.len() - i,
    {
        proof {
            assert(lv.take(i + 1).drop_last() =~= lv.take(i as int));
            assert(lv.take(i + 1).last() == lines@[i as int]@);
        }
        let ghost done = parsed.deep_view();
        match read_chunk_line(lines[i].as_str()) {
            Ok(pair) => {
                let ghost p = pair.deep_view();
                parsed.push(pair);
                assert(parsed.deep_view() =~= done.push(p));
            },
            Err(e) => {
                proof {
                    lemma_parsed_chunk_lines_prefix(lv, i + 1);
                }
                return Err(e);
            },
        }
        i += 1;
    }
    assert(lv.take(i as int) =~= lv);
    let ghost pairs = parsed.deep_view();
    let ghost base = tables@.chunks;
    let mut j: usize = 0;
    assert(pairs.take(0) =~= Seq::<(u128, Seq<char>)>::empty());
    while j < parsed.len()
        invariant
            tables.initialised(),
            plain_servers(tables@.servers),
            plain_locations(tables@.chunks),
            pairs == parsed.deep_view(),
            j <= parsed@.len(),
            forall|k: int| 0 <= k < parsed@.len() ==> free_of(#[trigger] parsed@[k].1@, ','),
            tables@.servers == old(tables)@.servers,
            tables@.chunks == insert_all(base, pairs.take(j as int)),
        decreases parsed@.len() - j,
    {
        proof {
            assert(pairs.take(j + 1).drop_last() =~= pairs.take(j as int));
            assert(pairs.take(j + 1).last() == parsed@[j as int].deep_view());
        }
        tables.chunk_map.insert(parsed[j].0, parsed[j].1.clone());
        j += 1;
    }
    assert(pairs.take(j as int) =~= pairs);
    Ok(())
}

/// Adds the servers that the stored lines denote to the server map, a
/// later line replacing an earlier one for the same server. Where a line
/// denotes nothing, nothing is added.
pub fn load_server_map(tables: &mut ChunkTables, lines: &Vec<String>) -> (r: Result<(), FsError>)
    requires
        old(tables).wf(),
    ensures
        final(tables).wf(),
        final(tables)@.chunks == old(tables)@.chunks,
        match parsed_server_lines(lines.deep_view()) {
            Some(pairs) => r is Ok && final(tables)@.servers == insert_all(
                old(tables)@.servers,
                pairs,
            ),
            None => r == Err::<(), FsError>(FsError::InvalidInput) && final(tables)@ == old(tables)@,
        },
{
    let ghost lv = lines.deep_view();
    let mut parsed: Vec<(String, Vec<u128>)> = Vec::new();
    let mut i: usize = 0;
    assert(lv.take(0) =~= Seq::<Seq<char>>::empty());
    assert(parsed.deep_view() =~= Seq::<(Seq<char>, Seq<u128>)>::empty());
    while i < lines.len()
        invariant
            tables.wf(),
            tables@ == old(tables)@,
            lv == lines.deep_view(),
            i <= lines@.len(),
            parsed_server_lines(lv.take(i as int)) == Some(parsed.deep_view()),
            forall|k: int| 0 <= k < parsed@.len() ==> free_of(#[trigger] parsed@[k].0@, ','),
        decreases lines@.len() - i,
    {
        proof {
            assert(lv.take(i + 1).drop_last() =~= lv.take(i as int));
            assert(lv.take(i + 1).last() == lines@[i as int]@);
        }
        let ghost done = parsed.deep_view();
        match read_server_line(lines[i].as_str()) {
            Ok(pair) => {
                let ghost p = pair.deep_view();
                parsed.push(pair);
                assert(parsed.deep_view() =~= done.push(p));
            },
            Err(e) => {
                proof {
                    lemma_parsed_server_lines_prefix(lv, i + 1);
                }
                return Err(e);
            },
        }
        i += 1;
    }
    assert(lv.take(i as int) =~= lv);
    let ghost pairs = parsed.deep_view();
    let ghost base = tables@.servers;
    let mut j: usize = 0;
    assert(pairs.take(0) =~= Seq::<(Seq<char>, Seq<u128>)>::empty());
    while j < parsed.len()
        invariant
            tables.initialised(),
            plain_servers(tables@.servers),
            plain_locations(tables@.chunks),
            pairs == parsed.deep_view(),
            j <= parsed@.len(),
            forall|k: int| 0 <= k < parsed@.len() ==> free_of(#[trigger] parsed@[k].0@, ','),
            tables@.chunks == old(tables)@.chunks,
            tables@.servers == insert_all(base, pairs.take(j as int)),
        decreases parsed@.len() - j,
    {
        proof {
            assert(pairs.take(j + 1).drop_last() =~= pairs.take(j as int));
            assert(pairs.take(j + 1).last() == parsed@[j as int].deep_view());
        }
        let ids = crate::safe_map::Snapshot::snapshot(&parsed[j].1);
        tables.server_map.insert(parsed[j].0.clone(), ids);
        j += 1;
    }
    assert(pairs.take(j as int) =~= pairs);
    Ok(())
}

/// Starts the two maps from their stored lines. From the lines that
/// `save_chunk_map` and `save_server_map` gave, the maps are as they were.
pub fn chunk_manager_init(chunk_lines: &Vec<String>, server_lines: &Vec<String>) -> (r: Result<
    ChunkTables,
    FsError,
>)
    ensures
        match (
            restored_chunks(chunk_lines.deep_view()),
            restored_servers(server_lines.deep_view()),
        ) {
            (Some(chunks), Some(servers)) => r matches Ok(tables) && tables.wf() && tables@.chunks
                == chunks && tables@.servers == servers,
            _ => r matches Err(e) && e == FsError::InvalidInput,
        },
{
    let mut tables = ChunkTables::new();
    match load_chunk_map(&mut tables, chunk_lines) {
        Err(e) => {
            return Err(e);
        },
        Ok(_) => {},
    }
    match load_server_map(&mut tables, server_lines) {
        Err(e) => {
            return Err(e);
        },
        Ok(_) => {},
    }
    proof {
        crate::safe_map::lemma_insert_all_empty(parsed_chunk_lines(chunk_lines.deep_view())->0);
        crate::safe_map::lemma_insert_all_empty(parsed_server_lines(server_lines.deep_view())->0);
    }
    Ok(tables)
}

} // verus!
