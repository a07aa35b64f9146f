use memelay::ga::ops::distance::{dist1, dist_abs};
use memelay::ga::cfg::{Niching, Species};
use memelay::ga::niching::Niching as SharedNiching;
use memelay::ga::operators::initial::{rand_vec, str_to_vec, vec_to_str};
use memelay::ga::ops::crossover::crossover_kpx;
use memelay::ga::operators::fitness::{
    combine_cost, combine_fitness, count_different as operators_count_different,
};
use memelay::ga::ops::fitness::count_different as ops_count_different;
use memelay::ga::util::count_different;
use memelay::grapher::Series;

#[test]
fn fitness_test_count_different() {
    assert_eq!(operators_count_different(&[1], &[1]), 0);
    assert_eq!(operators_count_different(&[1], &[2]), 1);
    assert_eq!(operators_count_different(&[1], &[1, 2]), 1);
    assert_eq!(operators_count_different(&[1, 2], &[1]), 1);
    assert_eq!(ops_count_different(&[1], &[1]), 0);
    assert_eq!(ops_count_different(&[1], &[2]), 1);
    assert_eq!(ops_count_different(&[1], &[1, 2]), 1);
    assert_eq!(ops_count_different(&[1, 2], &[1]), 1);
}

#[test]
fn util_test_count_different() {
    assert_eq!(count_different(&[1], &[1]), 0);
    assert_eq!(count_different(&[1], &[2]), 1);
    assert_eq!(count_different(&[1], &[1, 2]), 1);
    assert_eq!(count_different(&[1, 2], &[1]), 1);
}

#[test]
fn count_different_longer_inputs() {
    assert_eq!(count_different(&[1, 2, 3, 4], &[1, 0, 3]), 2);
    assert_eq!(count_different::<u8>(&[], &[]), 0);
    assert_eq!(count_different(&['a', 'b'], &['b', 'a']), 2);
}

#[test]
fn combine_fitness_shifts_by_decimal_digits() {
    // The least power of ten reaching 7 is 10: one digit more makes 100.
    assert_eq!(combine_fitness(3, 5, 7), 305);
    // Reaching 100 takes 100: shift by 1000.
    assert_eq!(combine_fitness(2, 42, 100), 2042);
    assert_eq!(combine_fitness(0, 9, 0), 9);
    assert_eq!(combine_cost(3, 2, 7), 305);
    assert_eq!(memelay::ga::util::combine_fitness(1, 1, 10), 101);
    assert_eq!(memelay::ga::util::combine_cost(1, 10, 10), 100);
}

#[test]
fn combine_fitness_orders_lexicographically() {
    assert!(memelay::ga::util::combine_fitness(1, 0, 99) > memelay::ga::util::combine_fitness(0, 99, 99));
    assert!(memelay::ga::util::combine_fitness(1, 3, 99) < memelay::ga::util::combine_fitness(1, 4, 99));
}

#[test]
fn test_crossover_1px() {
    let mut a = str_to_vec("abcd");
    let mut b = str_to_vec("wxyz");
    crossover_kpx(&mut a, &mut b, &[3]);
    assert_eq!(vec_to_str(&a), "abcz");
    assert_eq!(vec_to_str(&b), "wxyd");
}

#[test]
fn test_crossover_2px() {
    let mut a = str_to_vec("abcd");
    let mut b = str_to_vec("wxyz");
    crossover_kpx(&mut a, &mut b, &[1, 2]);
    assert_eq!(vec_to_str(&a), "axcd");
    assert_eq!(vec_to_str(&b), "wbyz");
}

#[test]
fn crossover_unsorted_points_and_unequal_lengths() {
    let mut a = str_to_vec("abcdef");
    let mut b = str_to_vec("uvwx");
    crossover_kpx(&mut a, &mut b, &[2, 0]);
    assert_eq!(vec_to_str(&a), "uvcdef");
    assert_eq!(vec_to_str(&b), "abwx");
    let mut c = str_to_vec("abcd");
    let mut d = str_to_vec("wxyz");
    crossover_kpx(&mut c, &mut d, &[]);
    assert_eq!(vec_to_str(&c), "abcd");
}

#[test]
fn strings_and_char_vectors() {
    assert_eq!(str_to_vec("héllo"), vec!['h', 'é', 'l', 'l', 'o']);
    assert_eq!(vec_to_str(&['o', 'k']), "ok");
    assert_eq!(vec_to_str(&[]), "");
}

#[test]
fn rand_vec_calls_once_per_value() {
    let v = rand_vec(4, || 7u8);
    assert_eq!(v, vec![7, 7, 7, 7]);
    assert!(memelay::ga::ops::util::rand_vec(0, || 1).is_empty());
}

#[test]
fn ga_config_enums() {
    assert_ne!(Niching::Off, Niching::SharedFitness);
    assert_eq!(Species::TargetNumber(3), Species::TargetNumber(3));
    assert!(Species::Off < Species::TargetNumber(1));
    assert_ne!(SharedNiching::SharedFitness(2), SharedNiching::Off);
    assert_eq!(Series, Series.clone());
}

#[test]
fn test_crossover_kpx() {
    let (a, b) = memelay::ga::util::crossover_kpx(&str_to_vec("abcd"), &str_to_vec("wxyz"), &[3]);
    assert_eq!((vec_to_str(&a), vec_to_str(&b)), ("abcz".to_string(), "wxyd".to_string()));
    let (a, b) =
        memelay::ga::util::crossover_kpx(&str_to_vec("abcd"), &str_to_vec("wxyz"), &[1, 2]);
    assert_eq!((vec_to_str(&a), vec_to_str(&b)), ("axcd".to_string(), "wbyz".to_string()));
}

#[test]
fn util_crossover_kpx_unequal_lengths() {
    let (a, b) = memelay::ga::util::crossover_kpx(&str_to_vec("ab"), &str_to_vec("wxyz"), &[1]);
    assert_eq!((vec_to_str(&a), vec_to_str(&b)), ("axyz".to_string(), "wb".to_string()));
}

#[test]
fn uniform_crossover_with_given_coins() {
    let mut a = str_to_vec("abcd");
    let mut b = str_to_vec("wxyz");
    memelay::ga::ops::crossover::crossover_ux_coins(&mut a, &mut b, &[false, true, false, true]);
    assert_eq!(vec_to_str(&a), "axcz");
    assert_eq!(vec_to_str(&b), "wbyd");
    let (c, d) = memelay::ga::util::crossover_ux_coins(
        &str_to_vec("abcd"),
        &str_to_vec("wxy"),
        &[true, false, true],
    );
    assert_eq!((vec_to_str(&c), vec_to_str(&d)), ("axc".to_string(), "wby".to_string()));
}

#[test]
fn random_crossovers_keep_values_in_place() {
    let mut a = str_to_vec("abcdef");
    let mut b = str_to_vec("uvwxyz");
    memelay::ga::ops::crossover::crossover_ux(&mut a, &mut b);
    for i in 0..6 {
        let pair = (a[i], b[i]);
        let orig = ("abcdef".as_bytes()[i] as char, "uvwxyz".as_bytes()[i] as char);
        assert!(pair == orig || pair == (orig.1, orig.0));
    }
    let mut c = str_to_vec("abcdef");
    let mut d = str_to_vec("uvwxyz");
    memelay::ga::ops::crossover::crossover_kpx_rand(&mut c, &mut d, 2);
    for i in 0..6 {
        assert!(c[i] != d[i]);
        assert!(c[i] == "abcdef".as_bytes()[i] as char || c[i] == "uvwxyz".as_bytes()[i] as char);
    }
    let (e, f) = memelay::ga::util::crossover_kpx_rand(&str_to_vec("abc"), &str_to_vec("xyz"), 5);
    assert_eq!(e.len(), 3);
    assert_eq!(f.len(), 3);
    let (g, h) = memelay::ga::util::crossover_ux(&str_to_vec("abc"), &str_to_vec("xy"));
    assert_eq!(g.len(), 2);
    assert_eq!(h.len(), 2);
}

#[test]
fn replace_rand_changes_one_value() {
    let r = memelay::ga::util::replace_rand(&[1, 1, 1], 5);
    assert_eq!(r.iter().filter(|&&x| x == 5).count(), 1);
    assert_eq!(memelay::ga::util::replace_rand::<u8>(&[], 5), Vec::<u8>::new());
}

#[test]
fn mutate_reset_changes_one_value() {
    let mut s = vec![0u8; 5];
    memelay::ga::ops::mutation::mutate_reset(&mut s, 9);
    assert_eq!(s.iter().filter(|&&x| x == 9).count(), 1);
    let mut e: Vec<u8> = vec![];
    memelay::ga::ops::mutation::mutate_reset(&mut e, 9);
    assert!(e.is_empty());
    let r = memelay::ga::operators::mutation::replace_rand(&['a', 'a'], 'b');
    assert_eq!(r.iter().filter(|&&c| c == 'b').count(), 1);
}

#[test]
fn dist_abs_is_the_gap() {
    assert_eq!(dist_abs(3, 7), 4);
    assert_eq!(dist_abs(7, 3), 4);
    assert_eq!(dist_abs(5, 5), 0);
}

#[test]
fn dist1_pads_with_zeros() {
    assert_eq!(dist1(&[1, 2, 3], &[1, 5]), 6);
    assert_eq!(dist1(&[1, 5], &[1, 2, 3]), 6);
    assert_eq!(dist1(&[4, 4], &[4, 4, 0]), 0);
    assert_eq!(dist1(&[], &[]), 0);
}

#[test]
fn rand_vec_calls_a_counting_closure_in_order() {
    let mut calls = 0u32;
    let v = rand_vec(3, || {
        calls += 1;
        calls
    });
    assert_eq!(v, vec![1, 2, 3]);
    assert_eq!(calls, 3);
}
