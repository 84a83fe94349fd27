use adoc::ast::Location;
use adoc::diag::{Diagnostic, Diagnostics};

#[test]
fn diagnostics_collector_orders_pushes() {
    let mut diags = Diagnostics::new();
    diags.push(Diagnostic::warning(
        "adoc::a",
        "first".to_string(),
        Location::synthetic(),
    ));
    diags.push(Diagnostic::warning(
        "adoc::b",
        "second".to_string(),
        Location::synthetic(),
    ));
    let v = diags.into_vec();
    assert_eq!(v.len(), 2);
    assert_eq!(v[0].code, "adoc::a");
    assert_eq!(v[1].code, "adoc::b");
}
