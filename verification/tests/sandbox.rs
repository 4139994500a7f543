use access_hub::domain::User;
use std::collections::HashMap;

fn user(id: i64, name: &str) -> User {
    User {
        id,
        name: name.to_string(),
        code: String::new(),
        activate_code_at: None,
        expire_code_at: None,
    }
}

#[test]
fn test_it() {
    let data = vec![user(7, "Fee"), user(11, "Fi")];
    let mut m = HashMap::<i64, User>::new();
    let mut coll = Vec::<&User>::new();
    for d in data {
        m.insert(d.id, d);
    }
    coll.push(m.get(&7).unwrap());
    println!("{:?}", &m);
    println!("{:?}", &coll);
}
