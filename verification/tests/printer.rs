use knapsack::file_reader::parse_number;
use knapsack::knapsack::KnapsackSolution;
use knapsack::printer::write_decimal;

fn text_of(obj: usize, opt: bool, selected_items: Vec<u8>) -> String {
    String::from_utf8(KnapsackSolution { obj, opt, selected_items }.to_text()).unwrap()
}

#[test]
fn solution_text_has_two_lines() {
    assert_eq!(text_of(220, true, vec![0, 1, 1]), "220 1\n0 1 1");
    assert_eq!(text_of(0, false, vec![0]), "0 0\n0");
    assert_eq!(text_of(7, true, vec![]), "7 1\n");
    assert_eq!(text_of(19, false, vec![1, 0, 1, 0]), "19 0\n1 0 1 0");
}

#[test]
fn decimal_is_written_without_leading_zeros() {
    for n in [0usize, 1, 9, 10, 11, 99, 100, 101, 12345, 1_000_000, usize::MAX] {
        let mut out = vec![b'#'];
        write_decimal(&mut out, n);
        assert_eq!(String::from_utf8(out.clone()).unwrap(), format!("#{}", n));
        assert_eq!(parse_number(&out[1..]), Some(n));
    }
}
