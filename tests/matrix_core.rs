use hic_matrix::builders::{get_bin_offsets, zoom_pixels, CountOverflow, PairStatus, PairsBuilder, ZoomBuilder};
use hic_matrix::bins::{build_bin_offsets_from_pixels, build_bin_table_from_lengths, build_tig_offsets};
use hic_matrix::errors::{MatrixIndexError, QueryError, SelectorUninitError};
use hic_matrix::res_group::ResGroup;
use hic_matrix::selector::{window_relation, Selector2D, WindowRelation};
use hic_matrix::utils::{get_vec_wrt_predicate, get_zooming_order};

fn catalog() -> Vec<(String, u64)> {
    vec![("c0".to_string(), 1000), ("c1".to_string(), 1500)]
}

fn sorted_triples(r: (Vec<u32>, Vec<u32>, Vec<u32>)) -> Vec<(u32, u32, u32)> {
    assert_eq!(r.0.len(), r.1.len());
    assert_eq!(r.1.len(), r.2.len());
    let mut v: Vec<(u32, u32, u32)> = (0..r.0.len()).map(|k| (r.0[k], r.1[k], r.2[k])).collect();
    v.sort();
    v
}

fn selector_from_pixels(n_bins: usize, pixels: &Vec<(u32, u32, u32)>) -> Selector2D {
    let offsets = get_bin_offsets(n_bins, pixels);
    let bin2: Vec<u32> = pixels.iter().map(|p| p.1).collect();
    let counts: Vec<u32> = pixels.iter().map(|p| p.2).collect();
    Selector2D::new(offsets, bin2, counts).expect("valid store")
}

/// Dense symmetric matrix from a pixel list.
fn dense(n: usize, pixels: &Vec<(u32, u32, u32)>) -> Vec<Vec<u32>> {
    let mut m = vec![vec![0u32; n]; n];
    for &(a, b, c) in pixels {
        m[a as usize][b as usize] = c;
        m[b as usize][a as usize] = c;
    }
    m
}

fn brute_force(m: &Vec<Vec<u32>>, i0: usize, i1: usize, j0: usize, j1: usize) -> Vec<(u32, u32, u32)> {
    let mut v = Vec::new();
    for r in i0..i1 {
        for c in j0..j1 {
            if m[r][c] != 0 {
                v.push((r as u32, c as u32, m[r][c]));
            }
        }
    }
    v.sort();
    v
}

/// A small pseudo-random pixel set over `n` bins.
fn generated_pixels(n: u32, seed: u64) -> Vec<(u32, u32, u32)> {
    let mut state = seed;
    let mut px = Vec::new();
    for a in 0..n {
        for b in a..n {
            state = state.wrapping_mul(6364136223846793005).wrapping_add(1442695040888963407);
            if (state >> 33) % 3 == 0 {
                px.push((a, b, ((state >> 40) % 9 + 1) as u32));
            }
        }
    }
    px
}

#[test]
fn end_to_end_two_contigs() {
    let mut builder = PairsBuilder::new(&catalog(), 500);
    let c0 = "c0".to_string();
    let c1 = "c1".to_string();
    assert_eq!(builder.add_pair(&c0, 100, &c0, 400), PairStatus::Counted);
    assert_eq!(builder.add_pair(&c0, 100, &c0, 400), PairStatus::Counted);
    assert_eq!(builder.add_pair(&c0, 600, &c1, 50), PairStatus::Counted);
    assert_eq!(builder.get_n_bins(), 5);
    assert_eq!(builder.get_tig_offsets_view(), &vec![0, 2, 5]);
    let table = builder.get_bin_table().clone();
    assert_eq!(table.0, vec![0, 0, 1, 1, 1]);
    assert_eq!(table.1, vec![0, 500, 0, 500, 1000]);
    assert_eq!(table.2, vec![500, 1000, 500, 1000, 1500]);
    let pixels = builder.get_pixels();
    assert_eq!(pixels, vec![(0, 0, 2), (1, 2, 1)]);
    let sel = selector_from_pixels(5, &pixels);
    let got = sorted_triples(sel.get_raw_submatrix(0, 5, 0, 5));
    assert_eq!(got, vec![(0, 0, 2), (1, 2, 1), (2, 1, 1)]);
}

#[test]
fn unknown_contig_is_skipped() {
    let mut builder = PairsBuilder::new(&catalog(), 500);
    assert_eq!(builder.add_pair(&"c9".to_string(), 1, &"c0".to_string(), 2), PairStatus::Skipped);
    let empty = vec![("e".to_string(), 0u64), ("c0".to_string(), 10)];
    let mut b2 = PairsBuilder::new(&empty, 5);
    assert_eq!(b2.add_pair(&"e".to_string(), 0, &"c0".to_string(), 2), PairStatus::Skipped);
    assert_eq!(b2.add_pair(&"c0".to_string(), 9, &"c0".to_string(), 2), PairStatus::Counted);
    assert_eq!(b2.get_pixels(), vec![(0, 1, 1)]);
    assert_eq!(builder.get_pixels(), vec![]);
}

#[test]
fn positions_past_contig_end_are_cut() {
    let builder = PairsBuilder::new(&catalog(), 500);
    // 1000 is past the end of c0 (length 1000): it falls in c0's last bin, not in c1's first.
    assert_eq!(builder.get_bin_id(&"c0".to_string(), 1000), Some(1));
    assert_eq!(builder.get_bin_id(&"c1".to_string(), 1499), Some(4));
    assert_eq!(builder.pair_to_bin_rec(&"c1".to_string(), 0, &"c0".to_string(), 0), Some((0, 2)));
}

#[test]
fn tig_offsets_and_bin_table() {
    assert_eq!(build_tig_offsets(500, &vec![1000, 1500, 1]), vec![0, 2, 5, 6]);
    assert_eq!(build_tig_offsets(7, &vec![]), vec![0]);
    let (chrs, starts, ends) = build_bin_table_from_lengths(400, &vec![1000, 0, 400]);
    assert_eq!(chrs, vec![0, 0, 0, 2]);
    assert_eq!(starts, vec![0, 400, 800, 0]);
    assert_eq!(ends, vec![400, 800, 1000, 400]);
}

#[test]
fn offset_index_counts_rows() {
    let pixels = vec![(1, 1, 5), (1, 3, 1), (3, 3, 2), (3, 4, 7), (3, 5, 1)];
    let offsets = build_bin_offsets_from_pixels(6, &pixels);
    assert_eq!(offsets, vec![0, 0, 2, 2, 5, 5, 5]);
    for k in 0..6 {
        let n = pixels.iter().filter(|p| p.0 as usize == k).count() as u32;
        assert_eq!(offsets[k + 1] - offsets[k], n);
    }
    assert_eq!(build_bin_offsets_from_pixels(3, &vec![]), vec![0, 0, 0, 0]);
}

#[test]
fn symmetric_window_is_full_and_symmetric() {
    let pixels = generated_pixels(9, 7);
    let sel = selector_from_pixels(9, &pixels);
    let m = dense(9, &pixels);
    for i0 in 0..9 {
        for i1 in (i0 + 1)..=9 {
            let got = sorted_triples(sel.get_raw_submatrix(i0, i1, i0, i1));
            assert_eq!(got, brute_force(&m, i0, i1, i0, i1));
            for &(r, c, v) in &got {
                assert!(got.contains(&(c, r, v)));
            }
        }
    }
    // dense block: every cell present, each once
    let full: Vec<(u32, u32, u32)> = (0..4u32).flat_map(|a| (a..4).map(move |b| (a, b, a + b + 1))).collect();
    let sel = selector_from_pixels(4, &full);
    let got = sorted_triples(sel.get_raw_submatrix(1, 4, 1, 4));
    assert_eq!(got.len(), 9);
}

#[test]
fn every_window_matches_dense_reconstruction() {
    for seed in 1..4u64 {
        let pixels = generated_pixels(8, seed);
        let sel = selector_from_pixels(8, &pixels);
        let m = dense(8, &pixels);
        for i0 in 0..8 {
            for i1 in (i0 + 1)..=8 {
                for j0 in 0..8 {
                    for j1 in (j0 + 1)..=8 {
                        let got = sorted_triples(sel.get_raw_submatrix(i0, i1, j0, j1));
                        assert_eq!(got, brute_force(&m, i0, i1, j0, j1), "{} {} {} {}", i0, i1, j0, j1);
                    }
                }
            }
        }
    }
}

#[test]
fn window_relations() {
    assert_eq!(window_relation(0, 5, 0, 5), WindowRelation::Equal);
    assert_eq!(window_relation(0, 2, 3, 5), WindowRelation::Disjoint);
    assert_eq!(window_relation(0, 3, 3, 5), WindowRelation::Overlapping);
    assert_eq!(window_relation(0, 6, 2, 4), WindowRelation::Nested);
    assert_eq!(window_relation(2, 6, 2, 4), WindowRelation::Nested);
    assert_eq!(window_relation(1, 4, 2, 6), WindowRelation::Overlapping);
}

#[test]
fn triangular_round_trip_equals_raw_pairs() {
    let lengths = vec![("a".to_string(), 2000u64), ("b".to_string(), 1300u64)];
    let obs: Vec<(&str, u64, &str, u64)> = vec![
        ("a", 5, "a", 1999), ("b", 1200, "a", 10), ("b", 1299, "b", 0), ("a", 700, "b", 700),
        ("a", 1999, "a", 5), ("b", 5000, "b", 10), ("a", 999, "a", 1000),
    ];
    let mut builder = PairsBuilder::new(&lengths, 500);
    let mut direct = vec![vec![0u32; 7]; 7];
    for &(t1, p1, t2, p2) in &obs {
        assert_eq!(builder.add_pair(&t1.to_string(), p1, &t2.to_string(), p2), PairStatus::Counted);
        let bin = |t: &str, p: u64| -> usize {
            let (off, len) = if t == "a" { (0u64, 2000u64) } else { (4u64, 1300u64) };
            (off + p.min(len - 1) / 500) as usize
        };
        let (x, y) = (bin(t1, p1), bin(t2, p2));
        direct[x][y] += 1;
        if x != y {
            direct[y][x] += 1;
        }
    }
    assert_eq!(builder.get_n_bins(), 7);
    let pixels = builder.get_pixels();
    let sel = selector_from_pixels(7, &pixels);
    let got = sorted_triples(sel.get_raw_submatrix(0, 7, 0, 7));
    assert_eq!(got, brute_force(&direct, 0, 7, 0, 7));
}

#[test]
fn zoom_conserves_mass() {
    let lengths = vec![1000u64, 1500];
    // fine bins of width 250
    let fine_offsets = build_tig_offsets(250, &lengths);
    let (chrs, starts, _) = build_bin_table_from_lengths(250, &lengths);
    let n_fine = fine_offsets[2] as usize;
    assert_eq!(n_fine, 10);
    let pixels = generated_pixels(n_fine as u32, 11);
    let bins1: Vec<u32> = pixels.iter().map(|p| p.0).collect();
    let bins2: Vec<u32> = pixels.iter().map(|p| p.1).collect();
    let counts: Vec<u32> = pixels.iter().map(|p| p.2).collect();
    let mut zoom = ZoomBuilder::new(&lengths, 500, 4);
    let mut start = 0;
    while start < counts.len() {
        let end = (start + zoom.get_chunksize()).min(counts.len());
        assert_eq!(zoom.add_chunk(&chrs, &starts, &bins1[start..end].to_vec(), &bins2[start..end].to_vec(), &counts[start..end].to_vec()), Ok(()));
        start = end;
    }
    assert_eq!(zoom.get_n_bins(), 5);
    let coarse = zoom.get_pixels();
    let fine_sum: u32 = counts.iter().sum();
    let coarse_sum: u32 = coarse.iter().map(|p| p.2).sum();
    assert_eq!(fine_sum, coarse_sum);
    for w in coarse.windows(2) {
        assert!((w[0].0, w[0].1) < (w[1].0, w[1].1));
    }
    let mut expect = vec![vec![0u32; 5]; 5];
    for &(a, b, c) in &pixels {
        let x = (a / 2) as usize;
        let y = (b / 2) as usize;
        expect[x.min(y)][x.max(y)] += c;
    }
    for &(a, b, c) in &coarse {
        assert_eq!(expect[a as usize][b as usize], c);
    }
}

#[test]
fn zoom_single_pixel() {
    let lengths = vec![1000u64, 1500];
    let (chrs, starts, _) = build_bin_table_from_lengths(100, &lengths);
    let mut zoom = ZoomBuilder::new(&lengths, 500, 10);
    // fine bin 3 is c0:[300,400), fine bin 12 is c1:[200,300)
    assert_eq!(zoom.add_chunk(&chrs, &starts, &vec![3, 12], &vec![12, 12], &vec![4, 6]), Ok(()));
    assert_eq!(zoom.get_pixels(), vec![(0, 2, 4), (2, 2, 6)]);
}

#[test]
fn zooming_order() {
    assert_eq!(get_zooming_order(&[1000, 5000, 10000, 25000, 3000]), vec![-1, 0, 1, 1, 0]);
    assert_eq!(get_zooming_order(&[7, 9]), vec![-1, -1]);
    assert_eq!(get_zooming_order(&[]), Vec::<i32>::new());
}

#[test]
fn mask_selection() {
    assert_eq!(get_vec_wrt_predicate(&[true, false, true], &[4, 5, 6]), vec![4, 6]);
    assert_eq!(get_vec_wrt_predicate(&[], &[]), Vec::<u32>::new());
}

#[test]
fn selector_rejects_bad_layout() {
    assert!(Selector2D::new(vec![0, 1, 1], vec![0], vec![3]).is_some());
    // column left of the diagonal
    assert!(Selector2D::new(vec![0, 0, 1], vec![0], vec![3]).is_none());
    // columns not increasing within a row
    assert!(Selector2D::new(vec![0, 2, 2], vec![1, 0], vec![3, 3]).is_none());
    // offsets not ending at the pixel count
    assert!(Selector2D::new(vec![0, 1, 1], vec![0, 1], vec![3, 3]).is_none());
    assert!(Selector2D::new(vec![], vec![], vec![]).is_none());
}

#[test]
fn res_group_errors() {
    let mut grp = ResGroup::new(500, 5, 2);
    assert_eq!(grp.get_raw_submatrix(0, 5, 0, 5), Err(QueryError::SelectorUninit(SelectorUninitError)));
    assert_eq!(grp.get_raw_submatrix(0, 6, 0, 5), Err(QueryError::Index(MatrixIndexError)));
    assert_eq!(grp.get_raw_submatrix(3, 3, 0, 5), Err(QueryError::Index(MatrixIndexError)));
    let pixels = vec![(0, 0, 2), (1, 2, 1)];
    grp.init_selector(selector_from_pixels(5, &pixels));
    assert!(grp.is_query_ready());
    let got = sorted_triples(grp.get_raw_submatrix(2, 3, 0, 5).unwrap());
    assert_eq!(got, vec![(2, 1, 1)]);
    assert_eq!(grp.get_raw_submatrix(4, 2, 0, 5), Err(QueryError::Index(MatrixIndexError)));
    assert_eq!(grp.get_resolution(), 500);
    assert_eq!(grp.get_n_pixels(), 2);
}

use hic_matrix::balancer::{binarize, few_nnz_bins, marginalize, zeroing_diags, Strategy};
use hic_matrix::res_group::RawPixelIterator;
use hic_matrix::utils::{get_zooming_plan, ZoomPlanError};

#[test]
fn strategies_from_text() {
    assert_eq!(Strategy::from_string("ICGW"), Strategy::ICGenomeWide);
    assert_eq!(Strategy::from_string("LEN"), Strategy::BinLength);
    assert_eq!(Strategy::from_string("icgw"), Strategy::Unbalanced);
    assert_eq!(Strategy::from_option(Some("LEN")), Strategy::BinLength);
    assert_eq!(Strategy::from_option(None), Strategy::Unbalanced);
}

#[test]
fn balancing_integer_stages() {
    let bins1 = vec![0, 0, 1, 2, 0];
    let bins2 = vec![0, 3, 2, 2, 4];
    let counts = vec![7, 2, 0, 5, 1];
    let z = zeroing_diags(&bins1, &bins2, &counts, 2);
    assert_eq!(z, vec![0, 2, 0, 0, 1]);
    assert_eq!(binarize(&vec![0, 2, 5, 0]), vec![0, 1, 1, 0]);
    let m = marginalize(5, &bins1, &bins2, &counts);
    assert_eq!(m, vec![7 + 7 + 2 + 1, 0, 5 + 5, 2, 1]);
    let nnz = marginalize(5, &bins1, &bins2, &binarize(&z));
    assert_eq!(nnz, vec![2, 0, 0, 1, 1]);
    assert_eq!(few_nnz_bins(&nnz, 2), vec![false, true, true, true, true]);
}

#[test]
fn pixel_chunks_cover_range() {
    let mut it = RawPixelIterator::new(3, 10, 4);
    assert_eq!(it.next(), Some((3, 7)));
    assert_eq!(it.next(), Some((7, 10)));
    assert_eq!(it.next(), None);
    assert_eq!(it.next(), None);
}

#[test]
fn zoom_plan_orders_and_links() {
    let plan = get_zooming_plan(&vec![1000], &vec![10000, 5000, 3000]).unwrap();
    assert_eq!(plan, vec![(1000, -1), (3000, 0), (5000, 0), (10000, 2)]);
    assert_eq!(get_zooming_plan(&vec![1000], &vec![]), Err(ZoomPlanError::Empty));
    assert_eq!(get_zooming_plan(&vec![1000, 5000], &vec![5000]), Err(ZoomPlanError::Duplicate));
    assert_eq!(get_zooming_plan(&vec![1000], &vec![500]), Err(ZoomPlanError::NoPredecessor(500)));
    assert_eq!(get_zooming_plan(&vec![1000], &vec![1500]), Err(ZoomPlanError::NoPredecessor(1500)));
}

#[test]
fn selector_from_pixel_list() {
    let pixels = vec![(0, 0, 2), (0, 3, 4), (1, 2, 1), (3, 3, 9)];
    let sel = Selector2D::from_pixels(4, &pixels);
    assert_eq!(sel.get_n_bins(), 4);
    let got = sorted_triples(sel.get_raw_submatrix(0, 4, 0, 4));
    assert_eq!(got, vec![(0, 0, 2), (0, 3, 4), (1, 2, 1), (2, 1, 1), (3, 0, 4), (3, 3, 9)]);
    let block = sel.fetch_stored_block(0, 4, 0, 4);
    assert_eq!(block, pixels);
    let got = sorted_triples(sel.get_raw_submatrix(2, 4, 0, 2));
    assert_eq!(got, vec![(2, 1, 1), (3, 0, 4)]);
}

#[test]
fn zoom_pixels_in_one_pass() {
    let lengths = vec![1000u64, 1500];
    let (chrs, starts, _) = build_bin_table_from_lengths(250, &lengths);
    let pixels = generated_pixels(10, 5);
    let b1: Vec<u32> = pixels.iter().map(|p| p.0).collect();
    let b2: Vec<u32> = pixels.iter().map(|p| p.1).collect();
    let c: Vec<u32> = pixels.iter().map(|p| p.2).collect();
    let coarse = zoom_pixels(&lengths, 500, &chrs, &starts, &b1, &b2, &c).unwrap();
    assert_eq!(coarse.iter().map(|p| p.2).sum::<u32>(), c.iter().sum::<u32>());
    assert!(coarse.iter().all(|p| p.0 <= p.1 && p.1 < 5));
    // zooming a single contig of 1000 at 100 into 1000: everything lands in one cell
    let (chrs, starts, _) = build_bin_table_from_lengths(100, &vec![1000]);
    let coarse = zoom_pixels(&vec![1000], 1000, &chrs, &starts, &vec![0, 3, 9], &vec![9, 4, 9], &vec![1, 2, 3]);
    assert_eq!(coarse, Some(vec![(0, 0, 6)]));
    // two fine cells whose sum does not fit one coarse cell
    let over = zoom_pixels(&vec![1000], 1000, &chrs, &starts, &vec![0, 1], &vec![0, 1], &vec![u32::MAX, 1]);
    assert_eq!(over, None);
    let mut zb = ZoomBuilder::new(&vec![1000], 1000, 2);
    assert_eq!(zb.add_chunk(&chrs, &starts, &vec![0, 1, 2], &vec![0, 1, 2], &vec![u32::MAX, 1, 1]), Err(CountOverflow));
    assert_eq!(zb.get_pixels(), vec![(0, 0, u32::MAX)]);
}

use hic_matrix::builders::order_by_length;
use hic_matrix::errors::MatrixResolutionError;
use hic_matrix::matrix::Matrix;

#[test]
fn contig_catalog_ordered_by_length() {
    let tigs = vec![("b".to_string(), 30u64), ("a".to_string(), 10), ("c".to_string(), 20)];
    let ordered = order_by_length(tigs);
    assert_eq!(ordered, vec![("a".to_string(), 10), ("c".to_string(), 20), ("b".to_string(), 30)]);
}

#[test]
fn matrix_resolutions_and_catalog() {
    let mut m = Matrix::new(&catalog());
    assert_eq!(m.get_n_chroms(), 2);
    assert_eq!(m.get_tig_id(&"c1".to_string()), Some(1));
    assert_eq!(m.get_tig_id(&"zz".to_string()), None);
    assert_eq!(m.get_tig_name(0), Some(&"c0".to_string()));
    assert_eq!(m.get_tig_name(2), None);
    assert_eq!(m.lengths_view(), &vec![1000, 1500]);
    assert!(m.register_new_resolution(ResGroup::new(500, 5, 2)));
    assert!(m.register_new_resolution(ResGroup::new(1000, 3, 2)));
    assert!(!m.register_new_resolution(ResGroup::new(500, 5, 9)));
    assert_eq!(m.get_resolutions(), vec![500, 1000]);
    assert_eq!(m.get_local_matrix(500).unwrap().get_n_pixels(), 2);
    assert_eq!(m.get_local_matrix(250).err(), Some(MatrixResolutionError));
    let pixels = vec![(0, 0, 2), (1, 2, 1)];
    assert_eq!(m.init_selector(500, Selector2D::from_pixels(5, &pixels)), Ok(()));
    assert_eq!(m.init_selector(42, Selector2D::from_pixels(5, &pixels)), Err(MatrixResolutionError));
    let grp = m.get_local_matrix(500).unwrap();
    assert!(grp.is_query_ready());
    let got = sorted_triples(grp.get_raw_submatrix(0, 5, 0, 5).unwrap());
    assert_eq!(got, vec![(0, 0, 2), (1, 2, 1), (2, 1, 1)]);
    assert!(!m.get_local_matrix(1000).unwrap().is_query_ready());
}

#[test]
fn rows_by_column() {
    for seed in 1..4u64 {
        let pixels = generated_pixels(9, seed);
        let sel = Selector2D::from_pixels(9, &pixels);
        let m = dense(9, &pixels);
        for r in 0..9usize {
            let expect: Vec<(u32, u32)> = (0..9).filter(|&c| m[r][c] != 0).map(|c| (c as u32, m[r][c])).collect();
            assert_eq!(sel.get_row(r), expect);
        }
    }
    let mut grp = ResGroup::new(500, 5, 2);
    assert_eq!(grp.get_raw_row_as_nnz_elems(1), Err(QueryError::SelectorUninit(SelectorUninitError)));
    assert_eq!(grp.get_raw_row_as_nnz_elems(5), Err(QueryError::Index(MatrixIndexError)));
    grp.init_selector(Selector2D::from_pixels(5, &vec![(0, 2, 3), (1, 2, 1), (2, 2, 7), (2, 4, 2)]));
    assert_eq!(grp.get_raw_row_as_nnz_elems(2), Ok(vec![(0, 3), (1, 1), (2, 7), (4, 2)]));
    assert_eq!(grp.get_raw_row_as_nnz_elems(3), Ok(vec![]));
}

#[test]
fn zero_counts_are_not_a_valid_store() {
    assert!(Selector2D::new(vec![0, 1, 1], vec![0], vec![0]).is_none());
    assert!(Selector2D::new(vec![0, 1, 2], vec![0, 1], vec![1, 0]).is_none());
}

#[test]
fn empty_pixel_range_walks_nothing() {
    let mut it = RawPixelIterator::new(5, 5, 3);
    assert_eq!(it.next(), None);
}

#[test]
fn contact_pairs_in_bulk() {
    let mut builder = PairsBuilder::new(&catalog(), 500);
    let obs = vec![
        ("c0".to_string(), 100u64, "c0".to_string(), 400u64),
        ("c0".to_string(), 100, "c0".to_string(), 400),
        ("c0".to_string(), 600, "c1".to_string(), 50),
        ("zz".to_string(), 1, "c1".to_string(), 50),
    ];
    builder.add_pairs(&obs);
    assert_eq!(builder.get_pixels(), vec![(0, 0, 2), (1, 2, 1)]);
}

#[test]
fn equal_lengths_keep_their_order() {
    let tigs = vec![("x".to_string(), 5u64), ("b".to_string(), 3), ("a".to_string(), 5), ("c".to_string(), 3)];
    assert_eq!(
        order_by_length(tigs),
        vec![("b".to_string(), 3), ("c".to_string(), 3), ("x".to_string(), 5), ("a".to_string(), 5)]
    );
}
