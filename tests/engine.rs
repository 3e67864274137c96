use pattern_parse::pattern::{
    alternative, commit, project, literal, next, optional, pair, predicate, repeat, sequence, MatchError, Outcome,
};

fn lit(v: u8) -> impl Fn(&Vec<u8>, usize) -> Outcome<u8> {
    move |s: &Vec<u8>, at: usize| literal(s, at, &v)
}

fn any(s: &Vec<u8>, at: usize) -> Outcome<u8> {
    predicate(s, at, &|x: &u8| Some(*x))
}

fn even(s: &Vec<u8>, at: usize) -> Outcome<u8> {
    predicate(s, at, &|x: &u8| if *x % 2 == 0 { Some(*x) } else { None })
}

fn odd(s: &Vec<u8>, at: usize) -> Outcome<u8> {
    predicate(s, at, &|x: &u8| if *x % 2 == 1 { Some(*x) } else { None })
}

fn sum(v: &[u8]) -> u8 {
    v.iter().fold(0, |acc, x| acc + x)
}

struct Input(u8);
struct Output(u8);
struct OutputRef<'a>(&'a Input);

fn input_is<'a>(s: &Vec<&'a Input>, at: usize, v: u8) -> Outcome<&'a Input> {
    predicate(s, at, &|x: &&'a Input| if x.0 == v { Some(*x) } else { None })
}

fn input_any<'a>(s: &Vec<&'a Input>, at: usize) -> Outcome<&'a Input> {
    predicate(s, at, &|x: &&'a Input| Some(*x))
}

fn input_even<'a>(s: &Vec<&'a Input>, at: usize) -> Outcome<&'a Input> {
    predicate(s, at, &|x: &&'a Input| if x.0 % 2 == 0 { Some(*x) } else { None })
}

fn input_odd<'a>(s: &Vec<&'a Input>, at: usize) -> Outcome<&'a Input> {
    predicate(s, at, &|x: &&'a Input| if x.0 % 2 == 1 { Some(*x) } else { None })
}

fn input_even_out<'a>(s: &Vec<&'a Input>, at: usize) -> Outcome<OutputRef<'a>> {
    predicate(s, at, &|x: &&'a Input| if x.0 % 2 == 0 { Some(OutputRef(*x)) } else { None })
}

fn input_odd_out<'a>(s: &Vec<&'a Input>, at: usize) -> Outcome<OutputRef<'a>> {
    predicate(s, at, &|x: &&'a Input| if x.0 % 2 == 1 { Some(OutputRef(*x)) } else { None })
}

// `? 0x01, 0x02` producing 0x01
fn maybe_one_then_two(s: &Vec<u8>, at: usize) -> Outcome<u8> {
    project(
        s,
        at,
        &|s: &Vec<u8>, at: usize| pair(s, at, &|s: &Vec<u8>, at: usize| optional(s, at, &lit(0x01)), &lit(0x02)),
        &|_: (Option<u8>, u8)| 0x01u8,
    )
}

#[test]
fn group_with_maybe_should_return_unused_symbol() {
    let x = |s: &Vec<u8>, at: usize| sequence(s, at, &maybe_one_then_two);
    let v: Vec<u8> = vec![0x01, 0x03];
    let o = x(&v, 0);
    assert!(matches!(o.0, Err(MatchError::Error(1))));
    assert_eq!(next(&v, o.1).0, Some((0, 0x01)));
}

#[test]
fn alt_with_maybe_should_pass_on_unused_symbol() {
    let b = |s: &Vec<u8>, at: usize| {
        project(s, at, &|s: &Vec<u8>, at: usize| pair(s, at, &lit(0x01), &lit(0x03)), &|_: (u8, u8)| 0x02u8)
    };
    let v: Vec<u8> = vec![0x01, 0x03];
    let o = alternative(&v, 0, &maybe_one_then_two, &b);
    assert!(matches!(o.0, Ok(0x02)));
}

#[test]
fn alt_with_maybe_should_return_unused_symbol() {
    let main = |s: &Vec<u8>, at: usize| maybe_one_then_two(s, at);
    let v: Vec<u8> = vec![0x01, 0x03];
    let o = main(&v, 0);
    assert!(matches!(o.0, Err(MatchError::Error(1))));
    assert_eq!(next(&v, o.1).0, Some((0, 0x01)));
}

#[test]
fn alt_should_return_unused_symbol() {
    let a = |s: &Vec<u8>, at: usize| {
        project(s, at, &|s: &Vec<u8>, at: usize| pair(s, at, &lit(0x01), &lit(0x02)), &|_: (u8, u8)| 0x01u8)
    };
    let v: Vec<u8> = vec![0x01, 0x03];
    let o = a(&v, 0);
    assert!(matches!(o.0, Err(MatchError::Error(1))));
    assert_eq!(next(&v, o.1).0, Some((0, 0x01)));
}

#[test]
fn seq_should_return_unused_symbol() {
    let v: Vec<u8> = vec![0x01, 0x03];
    let o = pair(&v, 0, &lit(0x01), &lit(0x02));
    assert!(matches!(o.0, Err(MatchError::Error(1))));
    assert_eq!(next(&v, o.1).0, Some((0, 0x01)));
}

#[test]
fn seq_with_maybe_should_return_unused_symbol() {
    let v: Vec<u8> = vec![0x01, 0x03];
    let o = maybe_one_then_two(&v, 0);
    assert!(matches!(o.0, Err(MatchError::Error(1))));
    assert_eq!(next(&v, o.1).0, Some((0, 0x01)));
}

#[test]
fn group_should_match() -> Result<(), MatchError> {
    let main = |s: &Vec<u8>, at: usize| {
        project(s, at, &|s: &Vec<u8>, at: usize| pair(s, at, &any, &lit(0x01)), &|(x, y): (u8, u8)| x + y)
    };
    let v: Vec<u8> = vec![0x05, 0x01];
    let o = main(&v, 0).0?;
    assert_eq!(o, 0x06);
    Ok(())
}

#[test]
fn group_should_handle_lifetime() -> Result<(), MatchError> {
    let v: Vec<Input> = vec![Input(0x05), Input(0x01)];
    let i: Vec<&Input> = v.iter().collect();
    let o = project(
        &i,
        0,
        &|s: &Vec<&Input>, at: usize| pair(s, at, &input_any, &|s: &Vec<&Input>, at: usize| input_is(s, at, 0x01)),
        &|(_, y): (&Input, &Input)| y,
    )
    .0?;
    assert_eq!(o.0, 0x01);
    Ok(())
}

#[test]
fn group_should_handle_different_output_type() -> Result<(), MatchError> {
    let v: Vec<u8> = vec![0x05, 0x01];
    let o = project(&v, 0, &|s: &Vec<u8>, at: usize| pair(s, at, &any, &lit(0x01)), &|(x, y): (u8, u8)| Output(x + y))
        .0?;
    assert_eq!(o.0, 0x06);
    Ok(())
}

#[test]
fn group_should_handle_different_output_type_with_lifetime() -> Result<(), MatchError> {
    let v: Vec<Input> = vec![Input(0x05), Input(0x01)];
    let i: Vec<&Input> = v.iter().collect();
    let o = project(
        &i,
        0,
        &|s: &Vec<&Input>, at: usize| pair(s, at, &input_any, &|s: &Vec<&Input>, at: usize| input_is(s, at, 0x01)),
        &|(_, y): (&Input, &Input)| OutputRef(y),
    )
    .0?;
    assert_eq!(o.0 .0, 0x01);
    Ok(())
}

#[test]
fn seq_should_handle_lifetime() -> Result<(), MatchError> {
    let v: Vec<Input> = vec![Input(0x00)];
    let i: Vec<&Input> = v.iter().collect();
    let o = input_is(&i, 0, 0x00).0?;
    assert_eq!(o.0, 0x00);
    Ok(())
}

#[test]
fn seq_should_handle_different_output_type() -> Result<(), MatchError> {
    let v: Vec<u8> = vec![0x00];
    let o = project(&v, 0, &lit(0x00), &|a: u8| Output(a)).0?;
    assert_eq!(o.0, 0x00);
    Ok(())
}

#[test]
fn seq_should_handle_different_output_type_with_lifetime() -> Result<(), MatchError> {
    let v: Vec<Input> = vec![Input(0x00)];
    let i: Vec<&Input> = v.iter().collect();
    let o = project(&i, 0, &|s: &Vec<&Input>, at: usize| input_is(s, at, 0x00), &|a: &Input| OutputRef(a)).0?;
    assert_eq!(o.0 .0, 0x00);
    Ok(())
}

#[test]
fn seq_should_handle_anon_fatal_pattern() {
    let v: Vec<u8> = vec![0x01];
    let o = project(&v, 0, &|s: &Vec<u8>, at: usize| commit(s, at, &lit(0x00)), &|_: u8| 0xFFu8);
    assert!(matches!(o.0, Err(MatchError::Fatal(_))));
}

#[test]
fn seq_should_handle_fatal_pattern() {
    let v: Vec<u8> = vec![0x01];
    let o = commit(&v, 0, &lit(0x00));
    assert!(matches!(o.0, Err(MatchError::Fatal(_))));
}

#[test]
fn seq_should_handle_anon_fatal_call() {
    let item = |s: &Vec<u8>, at: usize| literal(s, at, &0x00);
    let v: Vec<u8> = vec![0x01];
    let o = project(&v, 0, &|s: &Vec<u8>, at: usize| commit(s, at, &item), &|_: u8| 0xFFu8);
    assert!(matches!(o.0, Err(MatchError::Fatal(_))));
}

#[test]
fn seq_should_handle_fatal_call() {
    let item = |s: &Vec<u8>, at: usize| literal(s, at, &0x00);
    let v: Vec<u8> = vec![0x01];
    let o = commit(&v, 0, &item);
    assert!(matches!(o.0, Err(MatchError::Fatal(_))));
}

#[test]
fn seq_should_handle_named_call() -> Result<(), MatchError> {
    let v: Vec<u8> = vec![0x01, 0x02];
    let o = project(&v, 0, &|s: &Vec<u8>, at: usize| pair(s, at, &any, &any), &|(a, b): (u8, u8)| a + b).0?;
    assert_eq!(o, 3);
    Ok(())
}

#[test]
fn seq_should_handle_maybe_named_call() -> Result<(), MatchError> {
    let maybe = |s: &Vec<u8>, at: usize| optional(s, at, &any);
    let v: Vec<u8> = vec![0x01, 0x02];
    let o = project(
        &v,
        0,
        &|s: &Vec<u8>, at: usize| pair(s, at, &maybe, &maybe),
        &|(a, b): (Option<u8>, Option<u8>)| a.unwrap() + b.unwrap(),
    )
    .0?;
    assert_eq!(o, 3);
    Ok(())
}

fn ones_twos_threes(s: &Vec<u8>, at: usize) -> Outcome<((Vec<u8>, Vec<u8>), Vec<u8>)> {
    pair(
        s,
        at,
        &|s: &Vec<u8>, at: usize| {
            pair(
                s,
                at,
                &|s: &Vec<u8>, at: usize| repeat(s, at, &lit(0x01)),
                &|s: &Vec<u8>, at: usize| repeat(s, at, &lit(0x02)),
            )
        },
        &|s: &Vec<u8>, at: usize| repeat(s, at, &lit(0x03)),
    )
}

#[test]
fn seq_should_handle_zero_or_more_named_call() -> Result<(), MatchError> {
    let v: Vec<u8> = vec![0x01, 0x01, 0x01, 0x02, 0x02];
    let ((a, b), c) = ones_twos_threes(&v, 0).0?;
    let x = sum(&a);
    let y = b.iter().fold(x, |acc, v| acc + v);
    let o = c.iter().fold(y, |acc, v| acc + v);
    assert_eq!(o, 7);
    Ok(())
}

#[test]
fn seq_should_handle_anon_call() -> Result<(), MatchError> {
    let item = |s: &Vec<u8>, at: usize| literal(s, at, &0xFF);
    let v: Vec<u8> = vec![0xFF, 0xFF];
    let o = project(&v, 0, &|s: &Vec<u8>, at: usize| pair(s, at, &item, &item), &|_: (u8, u8)| 0xFFu8).0?;
    assert_eq!(o, 0xFF);
    Ok(())
}

#[test]
fn seq_should_handle_maybe_anon_call() -> Result<(), MatchError> {
    let item = |s: &Vec<u8>, at: usize| optional(s, at, &lit(0xFF));
    let v: Vec<u8> = vec![0xFF, 0xFF];
    let o = project(&v, 0, &|s: &Vec<u8>, at: usize| pair(s, at, &item, &item), &|_: (Option<u8>, Option<u8>)| 0xFFu8)
        .0?;
    assert_eq!(o, 0xFF);
    Ok(())
}

#[test]
fn seq_should_handle_zero_or_more_anon_call() -> Result<(), MatchError> {
    let v: Vec<u8> = vec![0x01, 0x01, 0x01, 0x02, 0x02];
    let o = project(&v, 0, &ones_twos_threes, &|_: ((Vec<u8>, Vec<u8>), Vec<u8>)| 0xFFu8).0?;
    assert_eq!(o, 0xFF);
    Ok(())
}

fn ones_threes_twos(s: &Vec<u8>, at: usize) -> Outcome<((Vec<u8>, Vec<u8>), Vec<u8>)> {
    pair(
        s,
        at,
        &|s: &Vec<u8>, at: usize| {
            pair(
                s,
                at,
                &|s: &Vec<u8>, at: usize| repeat(s, at, &lit(0x01)),
                &|s: &Vec<u8>, at: usize| repeat(s, at, &lit(0x03)),
            )
        },
        &|s: &Vec<u8>, at: usize| repeat(s, at, &lit(0x02)),
    )
}

#[test]
fn seq_should_handle_zero_or_more_anon_pattern() -> Result<(), MatchError> {
    let v: Vec<u8> = vec![0x01, 0x01, 0x01, 0x02, 0x02];
    let (o, at) = project(&v, 0, &ones_threes_twos, &|_: ((Vec<u8>, Vec<u8>), Vec<u8>)| 0xFFu8);
    assert_eq!(o?, 0xFF);
    assert!(matches!(next(&v, at).0, None));
    Ok(())
}

#[test]
fn seq_should_handle_zero_or_more_named_pattern() -> Result<(), MatchError> {
    let v: Vec<u8> = vec![0x01, 0x01, 0x01, 0x02, 0x02];
    let ((a, b), c) = ones_threes_twos(&v, 0).0?;
    let x = sum(&a);
    let y = b.iter().fold(x, |acc, v| acc + v);
    let o = c.iter().fold(y, |acc, v| acc + v);
    assert_eq!(o, 7);
    Ok(())
}

#[test]
fn seq_should_handle_multiple_maybe_patterns() -> Result<(), MatchError> {
    let v: Vec<u8> = vec![0x01, 0x02];
    let o = project(
        &v,
        0,
        &|s: &Vec<u8>, at: usize| {
            pair(s, at, &|s: &Vec<u8>, at: usize| optional(s, at, &lit(0x01)), &|s: &Vec<u8>, at: usize| {
                optional(s, at, &lit(0x02))
            })
        },
        &|(a, b): (Option<u8>, Option<u8>)| a.unwrap() + b.unwrap(),
    )
    .0?;
    assert_eq!(o, 3);
    Ok(())
}

#[test]
fn seq_should_handle_named_patterns() -> Result<(), MatchError> {
    let v: Vec<u8> = vec![0x01, 0x02];
    let o = project(&v, 0, &|s: &Vec<u8>, at: usize| pair(s, at, &lit(0x01), &lit(0x02)), &|(a, b): (u8, u8)| a + b)
        .0?;
    assert_eq!(o, 3);
    Ok(())
}

#[test]
fn seq_should_handle_maybe_named_patterns_thats_present() -> Result<(), MatchError> {
    let v: Vec<u8> = vec![0xFF, 0x02];
    let o = project(
        &v,
        0,
        &|s: &Vec<u8>, at: usize| pair(s, at, &|s: &Vec<u8>, at: usize| optional(s, at, &lit(0x01)), &any),
        &|(_a, b): (Option<u8>, u8)| b,
    )
    .0?;
    assert_eq!(o, 0xFF);
    Ok(())
}

#[test]
fn seq_should_handle_anon_patterns() -> Result<(), MatchError> {
    let v: Vec<u8> = vec![0x01, 0x02];
    let o = project(&v, 0, &|s: &Vec<u8>, at: usize| pair(s, at, &lit(0x01), &lit(0x02)), &|_: (u8, u8)| 0xFFu8).0?;
    assert_eq!(o, 0xFF);
    Ok(())
}

#[test]
fn seq_should_handle_maybe_anon_patterns_thats_present() -> Result<(), MatchError> {
    let v: Vec<u8> = vec![0xFF, 0x02];
    let o = project(
        &v,
        0,
        &|s: &Vec<u8>, at: usize| pair(s, at, &|s: &Vec<u8>, at: usize| optional(s, at, &lit(0x01)), &any),
        &|_: (Option<u8>, u8)| 0xEEu8,
    )
    .0?;
    assert_eq!(o, 0xEE);
    Ok(())
}

#[test]
fn alt_should_handle_block() -> Result<(), MatchError> {
    let v: Vec<u8> = vec![3, 3];
    let o = project(&v, 0, &|s: &Vec<u8>, at: usize| alternative(s, at, &even, &odd), &|b: u8| b + 1).0?;
    assert_eq!(o, 4);
    Ok(())
}

#[test]
fn alt_should_handle_lifetime_with_block() -> Result<(), MatchError> {
    let v: Vec<Input> = vec![Input(3), Input(3)];
    let i: Vec<&Input> = v.iter().collect();
    let o = project(&i, 0, &|s: &Vec<&Input>, at: usize| alternative(s, at, &input_even, &input_odd), &|b: &Input| b)
        .0?;
    assert_eq!(o.0, 3);
    Ok(())
}

#[test]
fn alt_should_handle_different_output_type_with_block() -> Result<(), MatchError> {
    let even_out = |s: &Vec<u8>, at: usize| predicate(s, at, &|x: &u8| if *x % 2 == 0 { Some(Output(*x)) } else { None });
    let odd_out = |s: &Vec<u8>, at: usize| predicate(s, at, &|x: &u8| if *x % 2 == 1 { Some(Output(*x)) } else { None });
    let v: Vec<u8> = vec![3, 3];
    let o = project(&v, 0, &|s: &Vec<u8>, at: usize| alternative(s, at, &even_out, &odd_out), &|b: Output| b).0?;
    assert_eq!(o.0, 3);
    Ok(())
}

#[test]
fn alt_should_handle_different_output_type_with_lifetime_block() -> Result<(), MatchError> {
    let v: Vec<Input> = vec![Input(3), Input(3)];
    let i: Vec<&Input> = v.iter().collect();
    let o = project(&i, 0, &|s: &Vec<&Input>, at: usize| alternative(s, at, &input_even_out, &input_odd_out), &|b| b)
        .0?;
    assert_eq!(o.0 .0, 3);
    Ok(())
}

#[test]
fn alt_should_match() -> Result<(), MatchError> {
    let v: Vec<u8> = vec![3, 3];
    let o = alternative(&v, 0, &even, &odd).0?;
    assert_eq!(o, 3);
    Ok(())
}

#[test]
fn alt_should_not_match() {
    let five = |s: &Vec<u8>, at: usize| predicate(s, at, &|x: &u8| if *x == 5 { Some(*x) } else { None });
    let v: Vec<u8> = vec![3, 3];
    let o = alternative(&v, 0, &even, &five);
    assert!(matches!(o.0, Err(MatchError::Error(_))));
}

#[test]
fn alt_should_handle_lifetime() -> Result<(), MatchError> {
    let v: Vec<Input> = vec![Input(3), Input(3)];
    let i: Vec<&Input> = v.iter().collect();
    let o = alternative(&i, 0, &input_even, &input_odd).0?;
    assert_eq!(o.0, 3);
    Ok(())
}

#[test]
fn alt_should_handle_different_output_type() -> Result<(), MatchError> {
    let even_out = |s: &Vec<u8>, at: usize| predicate(s, at, &|x: &u8| if *x % 2 == 0 { Some(Output(*x)) } else { None });
    let odd_out = |s: &Vec<u8>, at: usize| predicate(s, at, &|x: &u8| if *x % 2 == 1 { Some(Output(*x)) } else { None });
    let v: Vec<u8> = vec![3, 3];
    let o = alternative(&v, 0, &even_out, &odd_out).0?;
    assert_eq!(o.0, 3);
    Ok(())
}

#[test]
fn alt_should_handle_different_output_type_with_lifetime() -> Result<(), MatchError> {
    let v: Vec<Input> = vec![Input(3), Input(3)];
    let i: Vec<&Input> = v.iter().collect();
    let o = alternative(&i, 0, &input_even_out, &input_odd_out).0?;
    assert_eq!(o.0 .0, 3);
    Ok(())
}

#[test]
fn pred_should_match() -> Result<(), MatchError> {
    let v: Vec<u8> = vec![2, 3];
    let o = even(&v, 0).0?;
    assert_eq!(o, 2);
    Ok(())
}

#[test]
fn pred_should_not_match() {
    let v: Vec<u8> = vec![3, 2];
    let o = even(&v, 0);
    assert!(matches!(o.0, Err(MatchError::Error(_))));
}

#[test]
fn pred_should_handle_lifetime() -> Result<(), MatchError> {
    let v: Vec<Input> = vec![Input(2), Input(3)];
    let i: Vec<&Input> = v.iter().collect();
    let o = input_even(&i, 0).0?;
    assert_eq!(o.0, 2);
    Ok(())
}

#[test]
fn pred_should_handle_output_block() -> Result<(), MatchError> {
    let v: Vec<u8> = vec![2, 3];
    let o = predicate(&v, 0, &|x: &u8| if *x % 2 == 0 { Some(Output(*x + 1)) } else { None }).0?;
    assert_eq!(o.0, 3);
    Ok(())
}

#[test]
fn pred_should_handle_output_block_with_lifetime() -> Result<(), MatchError> {
    let v: Vec<Input> = vec![Input(2), Input(3)];
    let i: Vec<&Input> = v.iter().collect();
    let o = project(&i, 0, &input_even, &|x: &Input| OutputRef(x)).0?;
    assert_eq!(o.0 .0, 2);
    Ok(())
}

#[test]
fn cut_is_not_escaped_by_a_later_alternative() {
    // the first candidate commits after 0x01 and then fails; the second would match
    let first = |s: &Vec<u8>, at: usize| pair(s, at, &lit(0x01), &|s: &Vec<u8>, at: usize| commit(s, at, &lit(0x02)));
    let second = |s: &Vec<u8>, at: usize| pair(s, at, &lit(0x01), &lit(0x03));
    let v: Vec<u8> = vec![0x01, 0x03];
    let o = alternative(&v, 0, &first, &second);
    assert!(matches!(o.0, Err(MatchError::Fatal(1))));
}

#[test]
fn alternative_prefers_the_first_success() {
    let first = |s: &Vec<u8>, at: usize| project(s, at, &any, &|_: u8| 10u8);
    let second = |s: &Vec<u8>, at: usize| project(s, at, &any, &|_: u8| 20u8);
    let v: Vec<u8> = vec![0x07];
    let o = alternative(&v, 0, &first, &second);
    assert!(matches!(o.0, Ok(10)));
    assert_eq!(o.1, 1);
}

#[test]
fn recoverable_failure_leaves_the_rest_untouched() {
    let v: Vec<u8> = vec![0x01, 0x02, 0x04];
    let three = |s: &Vec<u8>, at: usize| {
        pair(s, at, &|s: &Vec<u8>, at: usize| pair(s, at, &lit(0x01), &lit(0x02)), &lit(0x03))
    };
    let (o, at) = three(&v, 0);
    assert!(matches!(o, Err(MatchError::Error(2))));
    let mut rest = vec![];
    let mut pos = at;
    while let (Some((_, x)), p) = next(&v, pos) {
        rest.push(x);
        pos = p;
    }
    assert_eq!(rest, v);
}

#[test]
fn end_of_input_is_its_own_failure() {
    let v: Vec<u8> = vec![];
    assert!(matches!(any(&v, 0).0, Err(MatchError::ErrorEndOfFile)));
    assert!(matches!(commit(&v, 0, &any).0, Err(MatchError::FatalEndOfFile)));
}

#[test]
fn optional_of_a_fatal_failure_is_fatal() {
    let v: Vec<u8> = vec![0x05];
    let o = optional(&v, 0, &|s: &Vec<u8>, at: usize| commit(s, at, &lit(0x01)));
    assert!(matches!(o.0, Err(MatchError::Fatal(0))));
    let o = optional(&v, 0, &lit(0x01));
    assert!(matches!(o.0, Ok(None)));
    assert_eq!(o.1, 0);
}

#[test]
fn repeat_stops_at_a_fatal_failure() {
    let v: Vec<u8> = vec![0x01, 0x01, 0x02];
    let item = |s: &Vec<u8>, at: usize| commit(s, at, &lit(0x01));
    let o = repeat(&v, 0, &item);
    assert!(matches!(o.0, Err(MatchError::Fatal(2))));
    let o = repeat(&v, 0, &lit(0x01));
    assert_eq!(o.0.unwrap(), vec![0x01, 0x01]);
    assert_eq!(o.1, 2);
}

#[test]
fn literal_produces_the_matched_element() {
    let v: Vec<u8> = vec![0x07, 0x08];
    let o = literal(&v, 1, &0x08);
    assert!(matches!(o.0, Ok(0x08)));
    assert_eq!(o.1, 2);
}
