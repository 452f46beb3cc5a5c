use lexmatch::expression::Expression;
use lexmatch::recognizer::Recognizer;

#[test]
fn t() {
    println!(
        "{:?}",
        Recognizer::new(vec![
            Expression::satisfy(|c| c.is_ascii_digit()),
            Expression::satisfy(|c| c.is_ascii_digit()).star()
        ])
    );
}

#[test]
fn benchmark() {
    let input = vec!['a' as u8; 1_000_000_000];
    let start = std::time::Instant::now();
    let f = Recognizer::new(vec![
        Expression::satisfy(|c| c == 'a' as u8).star(),
        Expression::satisfy(|c| c == 'b' as u8),
    ])
    .find(input.as_slice())
    .unwrap();
    println!("{:?}\n{:?}", f, start.elapsed());
}
