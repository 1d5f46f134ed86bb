use gfs_master::chunk_manager::{
    add_server, chunk_manager_init, fresh_id, get_chunks, is_in_use, load_chunk_map,
    load_server_map, place,
    read_chunk_line, read_server_line, save_chunk_map, save_server_map, write_chunks, ChunkTables,
    REPLICAS,
};
use gfs_master::error::FsError;

fn s(text: &str) -> String {
    text.to_string()
}

fn tables_with(servers: &[&str]) -> ChunkTables {
    let mut tables = ChunkTables::new();
    for server in servers {
        add_server(&mut tables, s(server)).unwrap();
    }
    tables
}

#[test]
fn replica_width_is_three() {
    assert_eq!(REPLICAS, 3);
}

#[test]
fn write_chunks_needs_three_live_servers() {
    let mut tables = tables_with(&[]);
    assert!(write_chunks(&mut tables, 1024).is_empty());
    let mut tables = tables_with(&["a:1", "b:1"]);
    assert!(write_chunks(&mut tables, 1024).is_empty());
    assert!(save_chunk_map(&tables).is_empty());
}

#[test]
fn write_chunks_places_on_distinct_servers() {
    let servers = ["a:1", "b:1", "c:1", "d:1", "e:1"];
    let mut tables = tables_with(&servers);
    for _ in 0..20 {
        let placed = write_chunks(&mut tables, 1);
        assert_eq!(placed.len(), 3);
        for i in 0..3 {
            assert!(servers.contains(&placed[i].1.as_str()));
            for j in 0..i {
                assert_ne!(placed[i].0, placed[j].0);
                assert_ne!(placed[i].1, placed[j].1);
            }
        }
        // Every chunk records its server, and the server lists the chunk.
        let ids: Vec<u128> = placed.iter().map(|p| p.0).collect();
        assert_eq!(get_chunks(&tables, ids), placed);
        let lines = save_server_map(&tables);
        for (id, server) in &placed {
            let line = lines.iter().find(|l| l.starts_with(server.as_str())).unwrap();
            assert!(line.contains(&uuid::Uuid::from_u128(*id).to_string()));
        }
    }
    assert_eq!(save_chunk_map(&tables).len(), 60);
}

#[test]
fn write_chunks_ignores_the_size() {
    let mut tables = tables_with(&["a:1", "b:1", "c:1"]);
    assert_eq!(write_chunks(&mut tables, 0).len(), 3);
    assert_eq!(write_chunks(&mut tables, usize::MAX).len(), 3);
}

#[test]
fn place_records_pairs_in_order() {
    let mut tables = tables_with(&["a:1", "b:1", "c:1"]);
    let placed = place(&mut tables, vec![10, 11], vec![s("b:1"), s("a:1")]);
    assert_eq!(placed, vec![(10, s("b:1")), (11, s("a:1"))]);
    let placed = place(&mut tables, vec![12], vec![s("b:1")]);
    assert_eq!(placed, vec![(12, s("b:1"))]);
    assert_eq!(get_chunks(&tables, vec![12, 10, 11]), vec![(12, s("b:1")), (10, s("b:1")), (11, s("a:1"))]);
    let (server, ids) = save_server_map(&tables)
        .iter()
        .map(|l| read_server_line(l).unwrap())
        .find(|p| p.0 == "b:1")
        .unwrap();
    assert_eq!(server, "b:1");
    assert_eq!(ids, vec![10, 12]);
}

#[test]
fn place_refuses_what_cannot_be_placed() {
    let mut tables = tables_with(&["a:1", "b:1"]);
    place(&mut tables, vec![1], vec![s("a:1")]);
    let before = (save_chunk_map(&tables), save_server_map(&tables));
    // a known identifier
    assert!(place(&mut tables, vec![1], vec![s("b:1")]).is_empty());
    // an identifier twice
    assert!(place(&mut tables, vec![2, 2], vec![s("a:1"), s("b:1")]).is_empty());
    // a server twice
    assert!(place(&mut tables, vec![2, 3], vec![s("a:1"), s("a:1")]).is_empty());
    // a server that is not live
    assert!(place(&mut tables, vec![2], vec![s("z:1")]).is_empty());
    // more identifiers than servers
    assert!(place(&mut tables, vec![2, 3], vec![s("a:1")]).is_empty());
    assert_eq!((save_chunk_map(&tables), save_server_map(&tables)), before);
    assert!(place(&mut tables, vec![], vec![]).is_empty());
}

#[test]
fn get_chunks_skips_unknown_and_keeps_order() {
    let mut tables = tables_with(&["a:1", "b:1"]);
    place(&mut tables, vec![5, 6], vec![s("a:1"), s("b:1")]);
    assert_eq!(get_chunks(&tables, vec![6, 99, 5, 6]), vec![(6, s("b:1")), (5, s("a:1")), (6, s("b:1"))]);
    assert!(get_chunks(&tables, vec![]).is_empty());
    assert!(get_chunks(&tables, vec![7]).is_empty());
}

#[test]
fn add_server_keeps_the_chunks_of_a_live_server() {
    let mut tables = tables_with(&["a:1"]);
    place(&mut tables, vec![5], vec![s("a:1")]);
    add_server(&mut tables, s("a:1")).unwrap();
    assert_eq!(save_server_map(&tables), vec![s("a:1,00000000-0000-0000-0000-000000000005")]);
}

#[test]
fn stored_lines_have_the_documented_form() {
    let mut tables = tables_with(&["10.0.0.1:8001", "10.0.0.2:8001"]);
    place(&mut tables, vec![1, 2], vec![s("10.0.0.1:8001"), s("10.0.0.1:8001").replace("1:", "2:")]);
    place(&mut tables, vec![3], vec![s("10.0.0.1:8001")]);
    let mut chunk_lines = save_chunk_map(&tables);
    chunk_lines.sort();
    assert_eq!(
        chunk_lines,
        vec![
            s("00000000-0000-0000-0000-000000000001,10.0.0.1:8001"),
            s("00000000-0000-0000-0000-000000000002,10.0.0.2:8001"),
            s("00000000-0000-0000-0000-000000000003,10.0.0.1:8001"),
        ]
    );
    let mut server_lines = save_server_map(&tables);
    server_lines.sort();
    assert_eq!(
        server_lines,
        vec![
            s("10.0.0.1:8001,00000000-0000-0000-0000-000000000001,00000000-0000-0000-0000-000000000003"),
            s("10.0.0.2:8001,00000000-0000-0000-0000-000000000002"),
        ]
    );
}

#[test]
fn stored_lines_load_back() {
    let mut tables = tables_with(&["a:1", "b:1", "c:1", "idle:1"]);
    write_chunks(&mut tables, 1);
    write_chunks(&mut tables, 1);
    let chunk_lines = save_chunk_map(&tables);
    let server_lines = save_server_map(&tables);
    let loaded = chunk_manager_init(&chunk_lines, &server_lines).unwrap();
    let sorted = |mut v: Vec<String>| {
        v.sort();
        v
    };
    assert_eq!(sorted(save_chunk_map(&loaded)), sorted(chunk_lines));
    assert_eq!(sorted(save_server_map(&loaded)), sorted(server_lines));
}

#[test]
fn reading_lines() {
    assert_eq!(
        read_chunk_line("00000000-0000-0000-0000-00000000000a,host:1"),
        Ok((10, s("host:1")))
    );
    assert_eq!(read_chunk_line("00000000-0000-0000-0000-00000000000a,host:1,more"), Ok((10, s("host:1"))));
    assert_eq!(read_chunk_line("00000000-0000-0000-0000-00000000000a,"), Ok((10, s(""))));
    assert_eq!(read_chunk_line("00000000-0000-0000-0000-00000000000a"), Err(FsError::InvalidInput));
    assert_eq!(read_chunk_line("nope,host:1"), Err(FsError::InvalidInput));
    assert_eq!(read_chunk_line(""), Err(FsError::InvalidInput));
    assert_eq!(read_server_line("host:1"), Ok((s("host:1"), vec![])));
    assert_eq!(read_server_line(""), Ok((s(""), vec![])));
    assert_eq!(
        read_server_line("host:1,00000000-0000-0000-0000-00000000000a,00000000-0000-0000-0000-00000000000b"),
        Ok((s("host:1"), vec![10, 11]))
    );
    assert_eq!(read_server_line("host:1,"), Err(FsError::InvalidInput));
    assert_eq!(read_server_line("host:1,xyz"), Err(FsError::InvalidInput));
}

#[test]
fn loading_a_bad_line_changes_nothing() {
    let mut tables = tables_with(&["a:1"]);
    let good = s("00000000-0000-0000-0000-00000000000a,a:1");
    assert_eq!(load_chunk_map(&mut tables, &vec![good.clone(), s("bad")]), Err(FsError::InvalidInput));
    assert!(save_chunk_map(&tables).is_empty());
    assert_eq!(load_server_map(&mut tables, &vec![s("b:1"), s("c:1,zz")]), Err(FsError::InvalidInput));
    assert_eq!(save_server_map(&tables), vec![s("a:1")]);
    assert_eq!(load_chunk_map(&mut tables, &vec![good.clone()]), Ok(()));
    assert_eq!(save_chunk_map(&tables), vec![good]);
    assert!(chunk_manager_init(&vec![s("bad")], &vec![]).is_err());
    assert!(chunk_manager_init(&vec![], &vec![s("a,bad")]).is_err());
}

#[test]
fn a_later_line_replaces_an_earlier_one() {
    let lines = vec![
        s("00000000-0000-0000-0000-00000000000a,first:1"),
        s("00000000-0000-0000-0000-00000000000a,second:1"),
    ];
    let tables = chunk_manager_init(&lines, &vec![s("x:1"), s("x:1,00000000-0000-0000-0000-00000000000a")]).unwrap();
    assert_eq!(get_chunks(&tables, vec![10]), vec![(10, s("second:1"))]);
    assert_eq!(save_server_map(&tables), vec![s("x:1,00000000-0000-0000-0000-00000000000a")]);
}

#[test]
fn a_free_candidate_is_taken_as_it_is() {
    let mut tables = tables_with(&["a:1", "b:1"]);
    place(&mut tables, vec![0, 1], vec![s("a:1"), s("b:1")]);
    assert_eq!(fresh_id(&tables, &vec![], 77), 77);
    assert_eq!(fresh_id(&tables, &vec![5, 6], u128::MAX), u128::MAX);
    assert!(!is_in_use(&tables, &vec![5, 6], 77));
}

#[test]
fn a_candidate_in_use_gives_way_to_the_least_free_identifier() {
    let mut tables = tables_with(&["a:1", "b:1"]);
    place(&mut tables, vec![0, 1], vec![s("a:1"), s("b:1")]);
    assert!(is_in_use(&tables, &vec![], 0));
    assert!(is_in_use(&tables, &vec![9], 9));
    // 0 and 1 are known, 2 and 4 are taken already: 3 is the least free one.
    assert_eq!(fresh_id(&tables, &vec![2, 4], 1), 3);
    assert_eq!(fresh_id(&tables, &vec![2, 4], 4), 3);
    assert_eq!(fresh_id(&tables, &vec![], 0), 2);
    let empty = ChunkTables::new();
    assert_eq!(fresh_id(&empty, &vec![7], 7), 0);
    assert_eq!(fresh_id(&empty, &vec![0, 7], 7), 1);
}

#[test]
fn write_chunks_places_whenever_three_servers_are_live() {
    let mut tables = tables_with(&["a:1", "b:1", "c:1"]);
    let mut seen = Vec::new();
    for _ in 0..50 {
        let placed = write_chunks(&mut tables, 1);
        assert_eq!(placed.len(), REPLICAS);
        let mut servers: Vec<String> = placed.iter().map(|p| p.1.clone()).collect();
        servers.sort();
        assert_eq!(servers, vec![s("a:1"), s("b:1"), s("c:1")]);
        for (id, _) in placed {
            assert!(!seen.contains(&id));
            seen.push(id);
        }
    }
    assert_eq!(save_chunk_map(&tables).len(), 150);
}
