use cyclonedds_rs::sg_reader::SGReader;

#[test]
fn serdes_scatter_gather() {
    let a = vec![1, 2, 3, 4, 5, 6];
    let b = vec![7, 8, 9, 10, 11];
    let c = vec![12, 13, 14, 15];
    let d = vec![16, 17, 18, 19, 20, 21];

    let sla: &[u8] = &a;
    let slb: &[u8] = &b;
    let slc: &[u8] = &c;
    let sld: &[u8] = &d;

    let sc_list = vec![sla, slb, slc, sld];

    let mut reader = SGReader::new(&sc_list);

    let mut buf = vec![0, 0, 0, 0, 0];
    if let Ok(n) = reader.read(&mut buf) {
        assert_eq!(&buf[..n], vec![1, 2, 3, 4, 5]);
    } else {
        panic!("should not panic");
    }
    if let Ok(n) = reader.read(&mut buf) {
        assert_eq!(&buf[..n], vec![6]);
    } else {
        panic!("should not panic");
    }
}

#[test]
fn deserializer_scatter_gather() {
    let a = vec![1, 2, 3, 4, 5, 6];
    let b = vec![7, 8, 9, 10, 11];
    let c = vec![12, 13, 14, 15];
    let d = vec![16, 17, 18, 19, 20, 21];

    let sla: &[u8] = &a;
    let slb: &[u8] = &b;
    let slc: &[u8] = &c;
    let sld: &[u8] = &d;

    let sc_list = vec![sla, slb, slc, sld];

    let mut reader = SGReader::new(&sc_list);

    let mut buf = vec![0, 0, 0, 0, 0];
    if let Ok(n) = reader.read(&mut buf) {
        assert_eq!(&buf[..n], vec![1, 2, 3, 4, 5]);
    } else {
        panic!("should not panic");
    }
    if let Ok(n) = reader.read(&mut buf) {
        assert_eq!(&buf[..n], vec![6]);
    } else {
        panic!("should not panic");
    }
}

fn drain(fragments: &[&[u8]], sizes: &[usize]) -> Vec<u8> {
    let mut reader = SGReader::new(fragments);
    let mut out = Vec::new();
    let mut turn = 0;
    loop {
        let mut buf = vec![0u8; sizes[turn % sizes.len()]];
        let n = reader.read(&mut buf).unwrap();
        if n == 0 {
            return out;
        }
        out.extend_from_slice(&buf[..n]);
        turn += 1;
    }
}

#[test]
fn reading_to_exhaustion_yields_the_bytes_in_order() {
    let all: Vec<u8> = (0u8..=99).collect();
    let fragments: Vec<&[u8]> = vec![&all[0..1], &all[1..40], &all[40..41], &all[41..97], &all[97..100]];
    assert_eq!(drain(&fragments, &[1]), all);
    assert_eq!(drain(&fragments, &[7]), all);
    assert_eq!(drain(&fragments, &[3, 50, 1, 200]), all);
    assert_eq!(drain(&fragments, &[1000]), all);
}

#[test]
fn a_read_stops_at_the_end_of_a_fragment() {
    let a: &[u8] = &[1, 2, 3];
    let b: &[u8] = &[4, 5];
    let list = [a, b];
    let mut reader = SGReader::new(&list);
    let mut buf = [0u8; 8];
    assert_eq!(reader.read(&mut buf).unwrap(), 3);
    assert_eq!(buf, [1, 2, 3, 0, 0, 0, 0, 0]);
    assert_eq!(reader.read(&mut buf).unwrap(), 2);
    assert_eq!(buf, [4, 5, 3, 0, 0, 0, 0, 0]);
    assert_eq!(reader.read(&mut buf).unwrap(), 0);
    assert_eq!(reader.read(&mut buf).unwrap(), 0);
}

#[test]
fn a_read_resumes_inside_a_fragment() {
    let a: &[u8] = &[1, 2, 3, 4, 5];
    let list = [a];
    let mut reader = SGReader::new(&list);
    let mut buf = [0u8; 2];
    assert_eq!(reader.read(&mut buf).unwrap(), 2);
    assert_eq!(buf, [1, 2]);
    assert_eq!(reader.read(&mut buf).unwrap(), 2);
    assert_eq!(buf, [3, 4]);
    assert_eq!(reader.read(&mut buf).unwrap(), 1);
    assert_eq!(buf, [5, 4]);
    assert_eq!(reader.read(&mut buf).unwrap(), 0);
}

#[test]
fn an_empty_list_reads_nothing() {
    let list: [&[u8]; 0] = [];
    let mut reader = SGReader::new(&list);
    let mut buf = [9u8; 4];
    assert_eq!(reader.read(&mut buf).unwrap(), 0);
    assert_eq!(buf, [9, 9, 9, 9]);
    assert_eq!(reader.read_exactly(0), Some(vec![]));
    assert_eq!(reader.read_exactly(1), None);
}

#[test]
fn an_empty_buffer_reads_nothing_and_loses_nothing() {
    let a: &[u8] = &[1, 2];
    let list = [a];
    let mut reader = SGReader::new(&list);
    let mut none = [0u8; 0];
    assert_eq!(reader.read(&mut none).unwrap(), 0);
    let mut buf = [0u8; 2];
    assert_eq!(reader.read(&mut buf).unwrap(), 2);
    assert_eq!(buf, [1, 2]);
}

#[test]
fn read_exactly_crosses_fragments() {
    let a: &[u8] = &[1, 2, 3];
    let b: &[u8] = &[4];
    let c: &[u8] = &[5, 6, 7];
    let list = [a, b, c];
    let mut reader = SGReader::new(&list);
    assert_eq!(reader.read_exactly(2), Some(vec![1, 2]));
    assert_eq!(reader.read_exactly(4), Some(vec![3, 4, 5, 6]));
    assert_eq!(reader.read_exactly(2), None);
}

#[test]
fn read_exactly_stops_at_an_empty_fragment() {
    let a: &[u8] = &[1, 2];
    let gap: &[u8] = &[];
    let b: &[u8] = &[3];
    let list = [a, gap, b];
    let mut reader = SGReader::new(&list);
    assert_eq!(reader.read_exactly(3), None);
}

#[test]
fn read_to_end_appends_what_is_left() {
    let a: &[u8] = &[1, 2];
    let gap: &[u8] = &[];
    let b: &[u8] = &[3];
    let list = [a, gap, b];
    let mut reader = SGReader::new(&list);
    let mut buf = [0u8; 1];
    assert_eq!(reader.read(&mut buf).unwrap(), 1);
    let mut out = vec![9u8];
    reader.read_to_end(&mut out);
    assert_eq!(out, vec![9, 2, 3]);
    assert_eq!(reader.read(&mut buf).unwrap(), 0);
}
