use arrow2::bitmap::Bitmap;
use table_schema::ColumnBuilder;
use table_schema::NewColumn;
use table_schema::NewNullableColumn;

/// A builder that gathers its rows in a vector.
struct RowBuilder {
    rows: Vec<Option<i64>>,
}

impl ColumnBuilder<i64, Vec<Option<i64>>> for RowBuilder {
    fn append_value(&mut self, val: i64) {
        self.rows.push(Some(val));
    }

    fn append_null(&mut self) {
        self.rows.push(None);
    }

    fn finish(&mut self) -> Vec<Option<i64>> {
        std::mem::take(&mut self.rows)
    }
}

/// A builder that counts what it is handed, to tell the two primitive steps apart.
struct StepCounter {
    values: usize,
    nulls: usize,
    last: Option<u8>,
}

impl ColumnBuilder<u8, (usize, usize)> for StepCounter {
    fn append_value(&mut self, val: u8) {
        self.values += 1;
        self.last = Some(val);
    }

    fn append_null(&mut self) {
        self.nulls += 1;
    }

    fn finish(&mut self) -> (usize, usize) {
        (self.values, self.nulls)
    }
}

#[derive(Debug, PartialEq)]
struct Rows(Vec<Option<i32>>);

impl NewColumn<i32> for Rows {
    fn new_from_slice<P: AsRef<[i32]>>(v: P) -> Self {
        Rows(v.as_ref().iter().map(|x| Some(*x)).collect())
    }

    fn new_from_iter(it: impl Iterator<Item = i32>) -> Self {
        Rows(it.map(Some).collect())
    }
}

impl NewNullableColumn<i32> for Rows {
    fn new_from_opt_slice(opt_v: &[Option<i32>]) -> Self {
        Rows(opt_v.to_vec())
    }

    fn new_from_opt_iter(it: impl Iterator<Item = Option<i32>>) -> Self {
        Rows(it.collect())
    }

    fn new_from_iter_validity(it: impl Iterator<Item = i32>, validity: Option<Bitmap>) -> Self {
        match validity {
            Some(bits) => Rows(
                it.enumerate()
                    .map(|(row, x)| if bits.get_bit(row) { Some(x) } else { None })
                    .collect(),
            ),
            None => Rows(it.map(Some).collect()),
        }
    }
}

#[test]
fn append_option_appends_a_present_value_as_append_value_does() {
    let mut by_option = RowBuilder { rows: vec![] };
    let mut by_value = RowBuilder { rows: vec![] };
    by_option.append_option(Some(7));
    by_value.append_value(7);
    assert_eq!(by_option.rows, by_value.rows);
    assert_eq!(by_option.rows, vec![Some(7)]);
}

#[test]
fn append_option_appends_an_absent_value_as_append_null_does() {
    let mut by_option = RowBuilder { rows: vec![] };
    let mut by_null = RowBuilder { rows: vec![] };
    by_option.append_option(None);
    by_null.append_null();
    assert_eq!(by_option.rows, by_null.rows);
    assert_eq!(by_option.rows, vec![None]);
}

#[test]
fn append_option_keeps_the_order_of_rows() {
    let mut builder = RowBuilder { rows: vec![] };
    builder.append_option(Some(1));
    builder.append_option(None);
    builder.append_value(3);
    builder.append_option(Some(-4));
    builder.append_null();
    assert_eq!(builder.finish(), vec![Some(1), None, Some(3), Some(-4), None]);
    assert_eq!(builder.finish(), vec![]);
}

#[test]
fn append_option_takes_exactly_one_step() {
    let mut counter = StepCounter { values: 0, nulls: 0, last: None };
    counter.append_option(Some(9));
    assert_eq!((counter.values, counter.nulls, counter.last), (1, 0, Some(9)));
    counter.append_option(None);
    assert_eq!((counter.values, counter.nulls, counter.last), (1, 1, Some(9)));
    assert_eq!(counter.finish(), (1, 1));
}

#[test]
fn columns_can_be_made_from_plain_values() {
    assert_eq!(Rows::new_from_slice(vec![1, 2, 3]), Rows(vec![Some(1), Some(2), Some(3)]));
    assert_eq!(Rows::new_from_slice([4, 5]), Rows(vec![Some(4), Some(5)]));
    assert_eq!(Rows::new_from_iter(0..3), Rows(vec![Some(0), Some(1), Some(2)]));
}

#[test]
fn columns_can_be_made_from_optional_values_and_a_validity_bitmap() {
    assert_eq!(Rows::new_from_opt_slice(&[Some(1), None]), Rows(vec![Some(1), None]));
    assert_eq!(
        Rows::new_from_opt_iter(vec![None, Some(2)].into_iter()),
        Rows(vec![None, Some(2)])
    );
    let validity = Bitmap::from([true, false, true]);
    assert_eq!(
        Rows::new_from_iter_validity(vec![10, 20, 30].into_iter(), Some(validity)),
        Rows(vec![Some(10), None, Some(30)])
    );
    assert_eq!(
        Rows::new_from_iter_validity(vec![10, 20].into_iter(), None),
        Rows(vec![Some(10), Some(20)])
    );
}
