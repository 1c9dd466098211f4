use binsubst::pattern::PatternPair;
use binsubst::replace::{any_set, overwrite, par_replace_bytes, replace_bytes, replace_window};
use rayon::iter::{IntoParallelIterator, ParallelIterator};

#[test]
fn test_par_replace_bytes() {
    //note that we use strings of length 3 and the test chunk size is 32 or larger and 3*30 < 32,
    //significantly since par_replace_bytes does:
    //  let chunk_size = max(dst.len() * 10, min_chunk_size);
    let src = b"ABC";
    let dst = b"XYZ";
    assert!(src.len() == dst.len());

    let pattern = PatternPair::new(src.to_vec(), dst.to_vec()).unwrap();

    let data_size = 1024;

    for num_srcs in 1..3 {
        (32..40).into_par_iter().for_each(|chunk_size: usize| {
            for first_src_pos in 0..chunk_size * 2 + 1 {
                for second_src_pos in first_src_pos + 1..first_src_pos + src.len() + chunk_size + 1 {
                    let mut data = vec![0; data_size];
                    let mut expected = vec![0; data_size];

                    let mut fill = |offset: usize| {
                        let fpos = first_src_pos + offset;
                        let spos = second_src_pos + offset;
                        data[fpos..fpos + src.len()].copy_from_slice(src);
                        if num_srcs == 1 || spos >= fpos + src.len() {
                            expected[fpos..fpos + dst.len()].copy_from_slice(dst);
                        } else {
                            expected[fpos..fpos + dst.len()].copy_from_slice(src);
                        }

                        if num_srcs == 2 {
                            data[spos..spos + src.len()].copy_from_slice(src);
                            expected[spos..spos + dst.len()].copy_from_slice(dst);
                        }
                    };
                    fill(0);
                    fill(data_size - (second_src_pos + src.len()));

                    par_replace_bytes(&mut data, &pattern, chunk_size);

                    assert_eq!(data, expected);
                }
            }
        });
    }
}

#[test]
fn replace_bytes_rewrites_every_occurrence_in_one_pass() {
    let pattern = PatternPair::new(b"/old".to_vec(), b"/new".to_vec()).unwrap();
    let mut data = b"a/old/b/old/old.c".to_vec();
    assert!(replace_bytes(&mut data, &pattern));
    assert_eq!(data, b"a/new/b/new/new.c".to_vec());
}

#[test]
fn replace_bytes_reports_no_change_without_an_occurrence() {
    let pattern = PatternPair::new(b"/old".to_vec(), b"/new".to_vec()).unwrap();
    let mut data = b"nothing to see /ol".to_vec();
    assert!(!replace_bytes(&mut data, &pattern));
    assert_eq!(data, b"nothing to see /ol".to_vec());
}

#[test]
fn region_shorter_than_the_pattern_is_left_alone() {
    let pattern = PatternPair::new(b"ABCDEF".to_vec(), b"UVWXYZ".to_vec()).unwrap();
    let mut data = b"ABCDE".to_vec();
    assert!(!par_replace_bytes(&mut data, &pattern, 4));
    assert_eq!(data, b"ABCDE".to_vec());
    let mut empty: Vec<u8> = Vec::new();
    assert!(!par_replace_bytes(&mut empty, &pattern, 4));
    assert!(empty.is_empty());
}

#[test]
fn scan_resumes_behind_what_it_wrote() {
    // leftmost first, then on from behind the written bytes: AAAAA gives BBBAA
    let pattern = PatternPair::new(b"AAA".to_vec(), b"BBB".to_vec()).unwrap();
    let mut data = b"AAAAA".to_vec();
    assert!(replace_bytes(&mut data, &pattern));
    assert_eq!(data, b"BBBAA".to_vec());
    // what was written is not matched again in the same pass
    let pattern = PatternPair::new(b"ab".to_vec(), b"ba".to_vec()).unwrap();
    let mut data = b"aab".to_vec();
    assert!(replace_bytes(&mut data, &pattern));
    assert_eq!(data, b"aba".to_vec());
}

#[test]
fn empty_pattern_changes_nothing() {
    let pattern = PatternPair::new(Vec::new(), Vec::new()).unwrap();
    let mut data = b"some bytes".to_vec();
    assert!(!replace_bytes(&mut data, &pattern));
    assert!(!par_replace_bytes(&mut data, &pattern, 0));
    assert_eq!(data, b"some bytes".to_vec());
}

#[test]
fn occurrence_across_a_chunk_boundary_is_replaced() {
    // pattern length 4 gives chunks of 40 bytes; the occurrence sits on 38..42
    let pattern = PatternPair::new(b"WXYZ".to_vec(), b"abcd".to_vec()).unwrap();
    let mut data = vec![b'.'; 100];
    data[38..42].copy_from_slice(b"WXYZ");
    let mut expected = vec![b'.'; 100];
    expected[38..42].copy_from_slice(b"abcd");
    assert!(par_replace_bytes(&mut data, &pattern, 0));
    assert_eq!(data, expected);
}

#[test]
fn chunk_size_is_ten_pattern_lengths_or_the_minimum() {
    // "ab" -> "ba" on "a" + "ab": an occurrence made by a write is only met
    // where a boundary window looks at it. With chunks of 20 bytes the
    // boundary at 20 sits between the lone 'a' and the "ab".
    let pattern = PatternPair::new(b"ab".to_vec(), b"ba".to_vec()).unwrap();
    let mut data = vec![b'.'; 40];
    data[19] = b'a';
    data[20] = b'a';
    data[21] = b'b';
    let mut small_chunks = data.clone();
    assert!(par_replace_bytes(&mut small_chunks, &pattern, 0));
    assert_eq!(&small_chunks[19..22], b"baa");
    // with a minimum of 64 bytes there is one chunk and no boundary
    let mut one_chunk = data.clone();
    assert!(par_replace_bytes(&mut one_chunk, &pattern, 64));
    assert_eq!(&one_chunk[19..22], b"aba");
}

#[test]
fn second_run_changes_nothing() {
    let pattern = PatternPair::new(b"/build/tree".to_vec(), b"/canon/path".to_vec()).unwrap();
    let mut data = Vec::new();
    for i in 0..200 {
        data.extend_from_slice(b"/build/tree/src/file");
        data.push(b'0' + (i % 10) as u8);
        data.push(0);
    }
    let before = data.len();
    assert!(par_replace_bytes(&mut data, &pattern, 64));
    assert_eq!(data.len(), before);
    let once = data.clone();
    assert!(!par_replace_bytes(&mut data, &pattern, 64));
    assert_eq!(data, once);
    assert!(!once.windows(11).any(|w| w == b"/build/tree"));
}

#[test]
fn engine_agrees_with_a_single_pass() {
    let pattern = PatternPair::new(b"needle".to_vec(), b"thread".to_vec()).unwrap();
    let mut data = Vec::new();
    for i in 0..300usize {
        if i % 7 == 3 {
            data.extend_from_slice(b"needle");
        } else {
            data.push(b'a' + (i % 26) as u8);
        }
    }
    let mut single = data.clone();
    let single_hit = replace_bytes(&mut single, &pattern);
    for min_chunk in [0usize, 61, 64, 100, 1000] {
        let mut chunked = data.clone();
        assert_eq!(par_replace_bytes(&mut chunked, &pattern, min_chunk), single_hit);
        assert_eq!(chunked, single);
    }
}

#[test]
fn overwrite_sets_the_range_and_nothing_else() {
    let mut data = b"0123456789".to_vec();
    overwrite(&mut data, 3, b"abcd");
    assert_eq!(data, b"012abcd789".to_vec());
    overwrite(&mut data, 10, b"");
    assert_eq!(data, b"012abcd789".to_vec());
}

#[test]
fn replace_window_leaves_the_rest_alone() {
    let pattern = PatternPair::new(b"xx".to_vec(), b"yy".to_vec()).unwrap();
    let mut data = b"xx..xx..xx".to_vec();
    assert!(replace_window(&mut data, 3, 7, &pattern));
    assert_eq!(data, b"xx..yy..xx".to_vec());
    assert!(!replace_window(&mut data, 1, 5, &pattern));
    assert_eq!(data, b"xx..yy..xx".to_vec());
}

#[test]
fn any_set_looks_for_a_flag() {
    assert!(!any_set(&Vec::new()));
    assert!(!any_set(&vec![false, false]));
    assert!(any_set(&vec![false, true, false]));
}

#[test]
fn second_run_changes_nothing_where_occurrences_overlap() {
    // runs of the source's first byte make occurrences that share bytes; the
    // destination is clear of the source, so one run leaves none behind
    let pattern = PatternPair::new(b"AAA".to_vec(), b"BBB".to_vec()).unwrap();
    for len in [5usize, 29, 30, 31, 32, 61, 100] {
        for min_chunk in [0usize, 31, 1000] {
            let mut data = vec![b'A'; len];
            assert!(par_replace_bytes(&mut data, &pattern, min_chunk));
            assert!(!data.windows(3).any(|w| w == b"AAA"));
            let once = data.clone();
            assert!(!par_replace_bytes(&mut data, &pattern, min_chunk));
            assert_eq!(data, once);
            assert!(!replace_bytes(&mut data, &pattern));
            assert_eq!(data, once);
        }
    }
}

#[test]
fn a_hit_is_reported_exactly_where_the_source_occurs() {
    // also where what is written makes the source anew: "ab" -> "ba"
    let pattern = PatternPair::new(b"ab".to_vec(), b"ba".to_vec()).unwrap();
    let mut with = vec![b'a'; 50];
    with[20] = b'b';
    assert!(par_replace_bytes(&mut with, &pattern, 0));
    let mut without = vec![b'a'; 50];
    assert!(!par_replace_bytes(&mut without, &pattern, 0));
    assert_eq!(without, vec![b'a'; 50]);
}
