//! Source text of the standard library modules that `require` loads.
use vstd::prelude::*;
use crate::text::str_eq;

verus! {

/// The `math` module: abs, min, max, even?, odd?, gcd, square, identity, pow, sqrt, lcm,
/// and floor, ceil and round, which leave an integer as it is.
pub const MATH_STDLIB: &'static str = "\n(define abs (lambda (x) (if (< x 0) (- 0 x) x)))\n(define min (lambda (a b) (if (< a b) a b)))\n(define max (lambda (a b) (if (> a b) a b)))\n(define even? (lambda (n) (= (mod n 2) 0)))\n(define odd? (lambda (n) (= (mod n 2) 1)))\n(define gcd (lambda (a b) (if (= b 0) (abs a) (gcd b (mod a b)))))\n(define square (lambda (x) (* x x)))\n(define identity (lambda (x) x))\n(define pow (lambda (base exp) (if (<= exp 0) 1 (* base (pow base (- exp 1))))))\n(define sqrt (lambda (n) (if (< n 0) nil (if (< n 2) n (loop ((x (/ n 2))) (let ((x1 (/ (+ x (/ n x)) 2))) (if (>= x1 x) x (recur x1))))))))\n(define lcm (lambda (a b) (if (or (= a 0) (= b 0)) 0 (/ (* (abs a) (abs b)) (gcd a b)))))\n(define floor (lambda (x) x))\n(define ceil (lambda (x) x))\n(define round (lambda (x) x))\n";

/// The `list` module: empty?, map, filter, reduce, find, some, every, reverse, sort, range, zip.
pub const STDLIB_LIST: &'static str = "\n(define empty? (lambda (lst) (if (nil? lst) true (= (len lst) 0))))\n(define map (lambda (f lst) (if (empty? lst) (list) (cons (f (car lst)) (map f (cdr lst))))))\n(define filter (lambda (pred lst) (if (empty? lst) (list) (if (pred (car lst)) (cons (car lst) (filter pred (cdr lst))) (filter pred (cdr lst))))))\n(define reduce (lambda (f init lst) (if (empty? lst) init (reduce f (f init (car lst)) (cdr lst)))))\n(define find (lambda (pred lst) (if (empty? lst) nil (if (pred (car lst)) (car lst) (find pred (cdr lst))))))\n(define some (lambda (pred lst) (if (empty? lst) false (if (pred (car lst)) true (some pred (cdr lst))))))\n(define every (lambda (pred lst) (if (empty? lst) true (if (pred (car lst)) (every pred (cdr lst)) false))))\n(define reverse (lambda (lst) (if (empty? lst) (list) (loop ((acc (list)) (cur lst)) (if (empty? cur) acc (recur (cons (car cur) acc) (cdr cur)))))))\n(define sort (lambda (lst) (if (empty? lst) (list) (if (empty? (cdr lst)) lst (let ((pivot (car lst)) (rest (cdr lst))) (append (sort (filter (lambda (x) (< x pivot)) rest)) (cons pivot (sort (filter (lambda (x) (>= x pivot)) rest)))))))))\n(define range (lambda (start end) (if (>= start end) (list) (cons start (range (+ start 1) end)))))\n(define zip (lambda (a b) (if (or (empty? a) (empty? b)) (list) (cons (list (car a) (car b)) (zip (cdr a) (cdr b))))))\n";

/// The `string` module: str-join, str-replace, str-repeat, str-pad-left, str-pad-right.
pub const STDLIB_STRING: &'static str = "\n(define str-join (lambda (sep lst) (if (or (nil? lst) (= (len lst) 0)) \"\" (if (nil? (cdr lst)) (car lst) (str-concat (car lst) (str-concat sep (str-join sep (cdr lst))))))))\n(define str-replace (lambda (s old new) (str-join new (str-split s old))))\n(define str-repeat (lambda (s n) (if (<= n 0) \"\" (if (= n 1) s (str-concat s (str-repeat s (- n 1)))))))\n(define str-pad-left (lambda (s len pad) (if (>= (str-length s) len) s (str-pad-left (str-concat pad s) len pad))))\n(define str-pad-right (lambda (s len pad) (if (>= (str-length s) len) s (str-pad-right (str-concat s pad) len pad))))\n";

/// The `crypto` module: hash/sha256-bytes, hash/keccak256-bytes.
pub const STDLIB_CRYPTO: &'static str = "\n(define hash/sha256-bytes (lambda (s) (sha256 s)))\n(define hash/keccak256-bytes (lambda (s) (keccak256 s)))\n";

/// The module source `require` loads for a module name.
pub open spec fn stdlib_code(name: Seq<char>) -> Option<&'static str> {
    if name == "math"@ {
        Some(MATH_STDLIB)
    } else if name == "list"@ {
        Some(STDLIB_LIST)
    } else if name == "string"@ {
        Some(STDLIB_STRING)
    } else if name == "crypto"@ {
        Some(STDLIB_CRYPTO)
    } else {
        None
    }
}

/// Source of the standard library module `name`, if there is one.
pub fn get_stdlib_code(name: &str) -> (r: Option<&'static str>)
    ensures
        r == stdlib_code(name@),
{
    if str_eq(name, "math") {
        Some(MATH_STDLIB)
    } else if str_eq(name, "list") {
        Some(STDLIB_LIST)
    } else if str_eq(name, "string") {
        Some(STDLIB_STRING)
    } else if str_eq(name, "crypto") {
        Some(STDLIB_CRYPTO)
    } else {
        None
    }
}

} // verus!
