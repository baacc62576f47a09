use mal::category::{
    compose, id, Adjunction, Characteristic, Exponential, FreeForgetfulAdjunction, HeadNat, IdNat, IdentityFunctor,
    ListFunctor, Omega, OptionFunctor, OptionToListNat, Product, Pullback, Pushout, Unit, Yoneda,
};

#[test]
fn topos_truth_values_and_objects() {
    assert_eq!(Omega::top(), Omega::True);
    assert_eq!(Omega::bottom(), Omega::False);
    assert_eq!(Omega::True.neg(), Omega::False);
    assert_eq!(Omega::False.neg(), Omega::True);
    assert_eq!(Omega::True.and(Omega::True), Omega::True);
    assert_eq!(Omega::True.and(Omega::False), Omega::False);
    assert_eq!(Omega::False.or(Omega::False), Omega::False);
    assert_eq!(Omega::True.or(Omega::False), Omega::True);
    assert_eq!(Omega::True.implies(Omega::False), Omega::False);
    assert_eq!(Omega::False.implies(Omega::True), Omega::True);
    let chi_even = Characteristic::new(|x: i32| if x % 2 == 0 { Omega::True } else { Omega::False });
    assert_eq!(chi_even.classify(4), Omega::True);
    assert_eq!(chi_even.classify(5), Omega::False);
    let prod = Product::new(10, "hello");
    assert_eq!(*prod.fst(), 10);
    assert_eq!(*prod.snd(), "hello");
    let exp = Exponential::new(|x: i32| x * 2);
    assert_eq!(exp.apply(5), 10);
    let unit = Unit;
    assert_eq!(unit, Unit);
    let pull = Pullback::<i32, String, bool>::new(42, "test".to_string());
    assert_eq!(pull.a, 42);
    assert_eq!(pull.b, "test");
    let push: Pushout<i32, String, bool> = Pushout::Left(100);
    match push {
        Pushout::Left(x) => assert_eq!(x, 100),
        _ => panic!("Expected Left"),
    }
}

#[test]
fn composition_applies_in_order() {
    let f = |x: i32| x * 2;
    let g = |x: i32| x + 1;
    let fg = compose(f, g);
    assert_eq!(fg(5), 11);
    let _adj: Adjunction<u8, u16> = Adjunction::new();
}

#[test]
fn test_functor_laws() {
    let opt = OptionFunctor;
    let id_fn = id::<i32>();
    let fid = opt.fmap(move |x: i32| id_fn(x));
    let result = fid(Some(42));
    assert_eq!(result, Some(42));
    let f = |x: i32| x * 2;
    let g = |x: i32| x + 1;
    let fg = opt.fmap(compose(f, g));
    let fg_result = fg(Some(5));
    assert_eq!(fg_result, Some(11));
    let list = ListFunctor;
    let double = list.fmap(|x: i32| x * 2);
    let result = double(vec![1, 2, 3]);
    assert_eq!(result, vec![2, 4, 6]);
    let id_functor = IdentityFunctor;
    let id_map = id_functor.fmap(|x: i32| x + 10);
    assert_eq!(id_map(5), 15);
}

#[test]
fn test_natural_transformation() {
    let head = HeadNat;
    let head_i32 = head.component::<i32>();
    assert_eq!(head_i32(vec![1, 2, 3]), Some(1));
    assert_eq!(head_i32(vec![]), None);
    let f = |x: i32| x.to_string();
    let opt_f = OptionFunctor.fmap(f);
    let left = opt_f(head_i32(vec![42, 100]));
    assert_eq!(left, Some("42".to_string()));
    let list_f = ListFunctor.fmap(f);
    let head_string = head.component::<String>();
    let right = head_string(list_f(vec![42, 100]));
    assert_eq!(right, Some("42".to_string()));
    assert_eq!(left, right);
    let opt_to_list = OptionToListNat;
    let comp = opt_to_list.component::<i32>();
    assert_eq!(comp(Some(42)), vec![42]);
    assert_eq!(comp(None), Vec::<i32>::new());
}

#[test]
fn test_monad_laws() {
    let opt = OptionFunctor;
    let unit = opt.unit::<i32>();
    let mult = opt.multiply::<i32>();
    let x = 42;
    let lifted = unit(x);
    let double_lifted = Some(lifted);
    let flattened = mult(double_lifted);
    assert_eq!(flattened, Some(42));
    let list = ListFunctor;
    let unit_list = list.unit::<i32>();
    let mult_list = list.multiply::<i32>();
    assert_eq!(unit_list(5), vec![5]);
    let nested = vec![vec![1, 2], vec![3, 4]];
    let flat = mult_list(nested);
    assert_eq!(flat, vec![1, 2, 3, 4]);
    let f = |x: i32| if x > 0 { Some(x * 2) } else { None };
    let result = Some(5).and_then(f);
    assert_eq!(result, Some(10));
}

#[test]
fn test_adjunction_laws() {
    let adj = FreeForgetfulAdjunction;
    let unit = adj.unit::<i32>();
    assert_eq!(unit(42), vec![42]);
    let counit = adj.counit(|list: Vec<i32>| list.iter().sum());
    assert_eq!(counit(vec![1, 2, 3, 4]), 10);
    let x = 5;
    let lifted = unit(x);
    let result = counit(lifted);
    assert_eq!(result, 5);
    let y = 10;
    let singleton = unit(y);
    let recovered = counit(singleton);
    assert_eq!(recovered, y);
}

#[test]
fn test_yoneda_and_topos() {
    let value = 42;
    let extracted = Yoneda::<IdentityFunctor, i32>::extract(IdNat, value);
    assert_eq!(extracted, 42);
    let embedded = Yoneda::<IdentityFunctor, i32>::embed(100);
    assert_eq!(embedded, 100);
    assert_eq!(Omega::top(), Omega::True);
    assert_eq!(Omega::bottom(), Omega::False);
    assert_eq!(Omega::True.neg(), Omega::False);
    assert_eq!(Omega::False.neg(), Omega::True);
    assert_eq!(Omega::True.and(Omega::True), Omega::True);
    assert_eq!(Omega::True.and(Omega::False), Omega::False);
    assert_eq!(Omega::False.or(Omega::False), Omega::False);
    assert_eq!(Omega::True.or(Omega::False), Omega::True);
    assert_eq!(Omega::True.implies(Omega::False), Omega::False);
    assert_eq!(Omega::False.implies(Omega::True), Omega::True);
    let chi_even = Characteristic::new(|x: i32| if x % 2 == 0 { Omega::True } else { Omega::False });
    assert_eq!(chi_even.classify(4), Omega::True);
    assert_eq!(chi_even.classify(5), Omega::False);
    let prod = Product::new(10, "hello");
    assert_eq!(*prod.fst(), 10);
    assert_eq!(*prod.snd(), "hello");
    let exp = Exponential::new(|x: i32| x * 2);
    assert_eq!(exp.apply(5), 10);
    let unit = Unit;
    assert_eq!(unit, Unit);
    let pull = Pullback::<i32, String, bool>::new(42, "test".to_string());
    assert_eq!(pull.a, 42);
    assert_eq!(pull.b, "test");
    let push: Pushout<i32, String, bool> = Pushout::Left(100);
    match push {
        Pushout::Left(x) => assert_eq!(x, 100),
        _ => panic!("Expected Left"),
    }
}

#[test]
fn yoneda_for_option_and_list() {
    assert_eq!(Yoneda::<OptionFunctor, i32>::extract(IdNat, Some(3)), Some(3));
    assert_eq!(Yoneda::<ListFunctor, i32>::embed(vec![1, 2]), vec![1, 2]);
}
