use ahc_subs::ahc022::usize_tools::UsizeTools;
use ahc_subs::ahc022::judge::Judge;

#[test]
fn abs_diff_both_orders() {
    assert_eq!(UsizeTools::abs_diff(&3usize, 10), 7);
    assert_eq!(UsizeTools::abs_diff(&10usize, 3), 7);
    assert_eq!(UsizeTools::abs_diff(&5usize, 5), 0);
}

#[test]
fn sq_err_squares_the_gap() {
    assert_eq!(UsizeTools::sq_err(&3usize, 10), 49);
    assert_eq!(UsizeTools::sq_err(&10usize, 3), 49);
    assert_eq!(UsizeTools::sq_err(&0usize, 0), 0);
}

#[test]
fn judge_reading() {
    assert_eq!(Judge::reading(12), Some(12));
    assert_eq!(Judge::reading(0), Some(0));
    assert_eq!(Judge::reading(-1), None);
}
