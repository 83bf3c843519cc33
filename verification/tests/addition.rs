use soft_f32::Float32;

fn float(x: f32) -> Float32 {
    Float32::from_bits(x.to_bits())
}

fn native(x: Float32) -> f32 {
    f32::from_bits(x.raw())
}

#[test]
fn addition_1() {
    let a = float(1.0);
    let b = float(2.0);
    let c = a + b;
    println!("c = {}", native(c));
    assert_eq!(
        c.raw(),
        float(3.0).raw(),
        "actual:{:?} vs expected:{:?}",
        c,
        float(3.0)
    );
}

#[test]
fn addition_2() {
    let a = float(1.5);
    let b = float(2.0);
    let c = a + b;
    println!("c = {}", native(c));
    assert_eq!(
        c.raw(),
        float(3.5).raw(),
        "actual:{:?} vs expected:{:?}",
        c,
        float(3.5)
    );
}

#[test]
fn addition_3() {
    let a = float(10.2);
    let b = float(0.1);
    let c = a + b;
    assert_eq!(
        c.raw(),
        float(10.3).raw(),
        "actual:{:?} vs expected:{:?}",
        c,
        float(10.3),
    );
}

#[test]
fn addition_4() {
    let a = float(1.25);
    let b = float(7.5);
    let c = a + b;
    assert_eq!(
        c.raw(),
        float(8.75).raw(),
        "actual:{:?} vs expected:{:?}",
        c,
        float(8.75)
    );
}

#[test]
fn addition_5() {
    let a = 2341.52;
    let b = 71.4;
    let c = float(a) + float(b);
    let c_ = a + b;
    assert_eq!(
        c.raw(),
        float(c_).raw(),
        "actual:{:?} vs expected:{:?}",
        c,
        float(c_)
    );
}

#[test]
fn addition_6() {
    let a = 131066.086;
    let b = 93.70508;
    let c = float(a) + float(b);
    let c_ = a + b;
    assert_eq!(
        c.raw(),
        float(c_).raw(),
        "actual:{:?} vs expected:{:?}",
        c,
        float(c_)
    );
}

#[test]
fn sum() {
    let xs = [0.1, 0.2, 0.3, 0.4, 0.5];
    let sum = xs.iter().fold(0.0, |acc, x| acc + x);
    let ys = xs.iter().map(|x| float(*x));
    let sum2 = ys.fold(float(0.0), |acc, x| acc + x);
    assert_eq!(
        sum,
        native(sum2),
        "actual:{:?} vs expected:{:?}",
        sum2,
        float(sum),
    );
}

#[test]
fn sum_rand() {
    let xs = (0..1000000)
        .map(|_| rand::random::<f32>())
        .collect::<Vec<f32>>();
    let mut sum = 0.0f32;
    let mut sum2 = float(0.0f32);
    for x in xs {
        let x = x * 100f32;
        println!("a. {} + {}", sum, x);
        println!("b. {} + {}", native(sum2), x);
        sum = sum + x;
        sum2 = sum2 + float(x);
        assert_eq!(
            sum,
            native(sum2),
            "actual:{:?} vs expected:{:?}",
            sum2,
            float(sum),
        );
    }
}
