use std::str::FromStr;
use strip_dag_node::Graph;

#[test]
fn create_from_str() {
    let g = Graph::from_str("a-b,b-c,c-d");
    assert!(g.is_ok());

    let g = Graph::from_str("a-b,b-c,f,c-d,k");
    assert!(g.is_ok());

    let g = Graph::from_str("f,k");
    assert!(g.is_ok());

    let g = Graph::from_str("f");
    assert!(g.is_ok());

    let g = Graph::from_str("");
    assert!(g.is_err());
}

#[test]
fn delete_node_test() {
    let g = Graph::from_str("a-b,b-c,c-d");
    let g_ref = &mut g.unwrap();
    assert!(g_ref.delete_node('a'));
    println!("Before deleting 'a' {}", g_ref.to_string());
    assert_eq!(g_ref.delete_node('k'), false);
    println!("After deleting 'a' {}", g_ref.to_string());

    let g = Graph::from_str("a-b,b-c,f,c-d,k");
    assert!(g.is_ok());
    let g_ref = &mut g.unwrap();
    println!("Before deleting 'f' {}", g_ref.to_string());
    assert!(g_ref.delete_node('f'));
    println!("After deleting 'f' {}", g_ref.to_string());

    let g = Graph::from_str("f,k");
    assert!(g.is_ok());
    let g_ref = &mut g.unwrap();
    println!("Before deleting 'f' {}", g_ref.to_string());
    assert!(g_ref.delete_node('f'));
    println!("After deleting 'f' {}", g_ref.to_string());

    let g = Graph::from_str("f");
    assert!(g.is_ok());
    let g_ref = &mut g.unwrap();
    println!("Before deleting 'f' {}", g_ref.to_string());
    assert!(g_ref.delete_node('f'));
    println!("After deleting 'f' {}", g_ref.to_string());

    let g = Graph::from_str("b-a,c-a,d-a,e-a");
    assert!(g.is_ok());
    let g_ref = &mut g.unwrap();
    println!("Before deleting 'a' {}", g_ref.to_string());
    assert!(g_ref.delete_node('a'));
    println!("After deleting 'a' {}", g_ref.to_string());

    let g = Graph::from_str("a-b,a-c,a-d,a-e");
    assert!(g.is_ok());
    let g_ref = &mut g.unwrap();
    println!("Before deleting 'a' {}", g_ref.to_string());
    assert!(g_ref.delete_node('a'));
    println!("After deleting 'a' {}", g_ref.to_string());

    let g = Graph::from_str("a-b,b-c,c-d,d-e");
    assert!(g.is_ok());
    let g_ref = &mut g.unwrap();
    println!("Before deleting 'a' {}", g_ref.to_string());
    assert!(g_ref.delete_node('a'));
    println!("After deleting 'a' {}", g_ref.to_string());

    let g = Graph::from_str("a-b,b-c,c-d,d-e");
    assert!(g.is_ok());
    let g_ref = &mut g.unwrap();
    println!("Before deleting 'e' {}", g_ref.to_string());
    assert!(g_ref.delete_node('e'));
    println!("After deleting 'e' {}", g_ref.to_string());

    let g = Graph::from_str("a-b,b-c,c-d,d-e");
    assert!(g.is_ok());
    let g_ref = &mut g.unwrap();
    println!("Before deleting 'c' {}", g_ref.to_string());
    assert!(g_ref.delete_node('c'));
    println!("After deleting 'c' {}", g_ref.to_string());

    let g = Graph::from_str("a-b,b-d,c-d,a-c");
    assert!(g.is_ok());
    let g_ref = &mut g.unwrap();
    println!("Before deleting 'c' {}", g_ref.to_string());
    assert!(g_ref.delete_node('c'));
    println!("After deleting 'c' {}", g_ref.to_string());

    let g = Graph::from_str("a-b,b-d,c-d,a-c");
    assert!(g.is_ok());
    let g_ref = &mut g.unwrap();
    println!("Before deleting 'a' {}", g_ref.to_string());
    assert!(g_ref.delete_node('a'));
    println!("After deleting 'a' {}", g_ref.to_string());

    let g = Graph::from_str("a-b,b-d,c-d,a-c");
    assert!(g.is_ok());
    let g_ref = &mut g.unwrap();
    println!("Before deleting 'd' {}", g_ref.to_string());
    assert!(g_ref.delete_node('d'));
    println!("After deleting 'd' {}", g_ref.to_string());

    let g = Graph::from_str("a-b,c-d");
    assert!(g.is_ok());
    let g_ref = &mut g.unwrap();
    println!("Before deleting 'a' {}", g_ref.to_string());
    assert!(g_ref.delete_node('a'));
    println!("After deleting 'a' {}", g_ref.to_string());

    let g = Graph::from_str("a-b,c-d");
    assert!(g.is_ok());
    let g_ref = &mut g.unwrap();
    println!("Before deleting 'd' {}", g_ref.to_string());
    assert!(g_ref.delete_node('d'));
    println!("After deleting 'd' {}", g_ref.to_string());
}

#[test]
fn to_string_test() {
    let g = Graph::from_str("a-b,b-c,c-d").unwrap();
    println!("{}", g.to_string());
    let g = Graph::from_str(&g.to_string());
    assert!(g.is_ok());

    let g = Graph::from_str("a-b,b-c,f,c-d,k").unwrap();
    println!("{}", g.to_string());
    let g = Graph::from_str(&g.to_string());
    assert!(g.is_ok());

    let g = Graph::from_str("f,k").unwrap();
    println!("{}", g.to_string());
    let g = Graph::from_str(&g.to_string());
    assert!(g.is_ok());

    let g = Graph::from_str("f").unwrap();
    println!("{}", g.to_string());
    let g = Graph::from_str(&g.to_string());
    assert!(g.is_ok());
}
